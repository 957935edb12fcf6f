//! Loader for skeletal-animation documents.
//!
//! The library builds two artifacts from a pair of JSON documents: a scene
//! graph of renderable nodes with correct parent/child ownership (see
//! `assemble`), and a compiled, replayable animation program that drives
//! each bone's transform over time (see `animation`). The atlas index maps
//! texture-region names to pixel rectangles; the document model is a typed
//! view over the parsed skeleton document.

pub mod animation;
pub mod assemble;
pub mod atlas;
pub mod character;
pub mod fields;
pub mod fixed;
pub mod json;
pub mod scene;

use vstd::prelude::*;
use crate::animation::{anims_match, anims_view, first_missing_target, tracks_view, Animations};
use crate::assemble::{assemble, assemble_err, assembled, Assembly};
use crate::atlas::{get_atlas, Atlas};
use crate::character::{get_character, Character, Name, NameV};
use crate::scene::index_wf;

verus! {

/// Everything that can go wrong while loading: each variant carries the
/// offending name. Any of these aborts the whole load; no partial scene is
/// ever returned.
#[derive(Debug, Clone, PartialEq, Eq)]
pub enum LoadError {
    /// Malformed JSON, or a required field missing or of the wrong shape.
    /// Carries a short description of the offending field.
    ParseError(String),
    /// A slot names a texture region absent from the atlas.
    UnknownRegion(String),
    /// A slot or bone names a parent that no node resolves to.
    UnknownParent(String),
    /// An animation track names a bone absent from the skeleton.
    UnknownAnimationTarget(String),
    /// Two records resolve to the same node identity.
    DuplicateIdentity(Name),
}

/// Spec-level error, over character sequences.
pub enum LoadErrorV {
    ParseError(Seq<char>),
    UnknownRegion(Seq<char>),
    UnknownParent(Seq<char>),
    UnknownAnimationTarget(Seq<char>),
    DuplicateIdentity(NameV),
}

impl View for LoadError {
    type V = LoadErrorV;

    open spec fn view(&self) -> LoadErrorV {
        match self {
            LoadError::ParseError(s) => LoadErrorV::ParseError(s@),
            LoadError::UnknownRegion(s) => LoadErrorV::UnknownRegion(s@),
            LoadError::UnknownParent(s) => LoadErrorV::UnknownParent(s@),
            LoadError::UnknownAnimationTarget(s) => LoadErrorV::UnknownAnimationTarget(s@),
            LoadError::DuplicateIdentity(n) => LoadErrorV::DuplicateIdentity(n@),
        }
    }
}


/// Everything one load produces: the parsed documents, the assembled scene
/// and the compiled animation program.
pub struct LoadedScene {
    pub atlas: Atlas,
    pub character: Character,
    pub scene: Assembly,
    pub animations: Animations,
}

/// Load a character: parse the atlas manifest and the skeleton document,
/// assemble the scene graph, and compile the animation program against the
/// assembled identity index.
///
/// Fails with the first error any stage raises; nothing partial escapes.
/// Text that is not JSON at all always fails.
pub fn load_character(atlas_text: &str, skeleton_text: &str, duration_divisor: u32) -> (r: Result<
    LoadedScene,
    LoadError,
>)
    ensures
        !crate::json::json_parses(atlas_text@) ==> r is Err,
        !crate::json::json_parses(skeleton_text@) ==> r is Err,
        r matches Ok(l) ==> {
            &&& assemble_err(l.character@, l.atlas@) is None
            &&& assembled(l.character@, l.atlas@, l.scene.index@, l.scene.store.nodes@)
            &&& l.scene.root_id == 0
            &&& l.animations.root_id == 0
            &&& l.animations.duration_divisor == duration_divisor
            &&& first_missing_target(tracks_view(l.character.animation@), l.scene.index@) is None
            &&& anims_match(
                tracks_view(l.character.animation@),
                l.scene.index@,
                anims_view(l.animations.anims@),
            )
        },
{
    let atlas = match get_atlas(atlas_text) {
        Ok(a) => a,
        Err(e) => {
            return Err(e);
        },
    };
    let character = match get_character(skeleton_text) {
        Ok(c) => c,
        Err(e) => {
            return Err(e);
        },
    };
    if character.slots.len() > 0x7fff_ffff || character.bones.len() > 0x7fff_ffff {
        return Err(LoadError::ParseError("document too large".to_owned()));
    }
    let scene = match assemble(&character, &atlas) {
        Ok(s) => s,
        Err(e) => {
            return Err(e);
        },
    };
    proof {
        reveal(crate::assemble::resolution_inv);
        assert(index_wf(scene.index@));
        assert forall|i: int|
            0 <= i < character.animation@.len() implies crate::animation::track_bounded(
            #[trigger] character.animation@[i]@,
        ) by {
            assert(character@.animation[i] == character.animation@[i]@);
            assert(crate::animation::track_bounded(character@.animation[i]));
        }
    }
    let animations = match Animations::from_dragon(
        &character.animation,
        &scene.index,
        scene.root_id,
        duration_divisor,
    ) {
        Ok(a) => a,
        Err(e) => {
            return Err(e);
        },
    };
    proof {
        assert(scene.root_id == 0);
    }
    Ok(LoadedScene { atlas, character, scene, animations })
}

} // verus!
