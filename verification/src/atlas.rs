//! Atlas index: texture-region names to pixel rectangles.
//!
//! Loaded once from a manifest and read-only afterwards. A lookup on an
//! absent name is a hard error: the asset is malformed.

use vstd::prelude::*;
use crate::LoadError;
use crate::fields::{req_i32_member, req_string_member};
use crate::json::{json_array, json_from_text, json_member, json_parses};

verus! {

/// One texture region: a named pixel rectangle within the shared image.
#[derive(Debug, Clone, PartialEq, Eq)]
pub struct SubTexture {
    pub name: String,
    pub x: i32,
    pub y: i32,
    pub width: i32,
    pub height: i32,
}

pub struct SubTextureV {
    pub name: Seq<char>,
    pub x: i32,
    pub y: i32,
    pub width: i32,
    pub height: i32,
}

impl View for SubTexture {
    type V = SubTextureV;

    open spec fn view(&self) -> SubTextureV {
        SubTextureV {
            name: self.name@,
            x: self.x,
            y: self.y,
            width: self.width,
            height: self.height,
        }
    }
}

/// The atlas manifest: image dimensions, the image path, and the regions in
/// declaration order.
#[derive(Debug, Clone)]
pub struct Atlas {
    pub width: i32,
    pub height: i32,
    pub image_path: String,
    pub sub_texture: Vec<SubTexture>,
}

pub struct AtlasV {
    pub width: i32,
    pub height: i32,
    pub image_path: Seq<char>,
    pub sub_texture: Seq<SubTextureV>,
}

impl View for Atlas {
    type V = AtlasV;

    open spec fn view(&self) -> AtlasV {
        AtlasV {
            width: self.width,
            height: self.height,
            image_path: self.image_path@,
            sub_texture: self.sub_texture@.map_values(|st: SubTexture| st@),
        }
    }
}

/// The first region with the given name, if any.
pub open spec fn region_at(regions: Seq<SubTextureV>, name: Seq<char>) -> Option<SubTextureV>
    decreases regions.len(),
{
    if regions.len() == 0 {
        None
    } else if regions[0].name == name {
        Some(regions[0])
    } else {
        region_at(regions.drop_first(), name)
    }
}

/// Looking up the name of a stored region returns exactly that region,
/// provided region names are distinct: what was inserted is what comes back.
pub proof fn lemma_region_roundtrip(regions: Seq<SubTextureV>, i: int)
    requires
        0 <= i < regions.len(),
        forall|a: int, b: int|
            0 <= a < b < regions.len() ==> (#[trigger] regions[a].name) != (
            #[trigger] regions[b].name),
    ensures
        region_at(regions, regions[i].name) == Some(regions[i]),
    decreases regions.len(),
{
    if i == 0 {
    } else {
        assert(regions[0].name != regions[i].name);
        let rest = regions.drop_first();
        assert(forall|a: int, b: int|
            0 <= a < b < rest.len() ==> (#[trigger] rest[a].name) != (#[trigger] rest[b].name))
            by {
            assert(forall|a: int| 0 <= a < rest.len() ==> rest[a] == regions[a + 1]);
        }
        lemma_region_roundtrip(rest, i - 1);
        assert(rest[i - 1] == regions[i]);
    }
}

impl Atlas {
    /// Find the first region with the given name.
    pub fn get_sub_texture(&self, name: &str) -> (r: Option<&SubTexture>)
        ensures
            match r {
                Some(st) => region_at(self@.sub_texture, name@) == Some(st@),
                None => region_at(self@.sub_texture, name@) is None,
            },
    {
        let key: String = name.to_owned();
        let n = self.sub_texture.len();
        let mut i: usize = 0;
        proof {
            assert(self@.sub_texture.skip(0) =~= self@.sub_texture);
        }
        while i < n
            invariant
                i <= n,
                n == self.sub_texture@.len(),
                region_at(self@.sub_texture, name@) == region_at(
                    self@.sub_texture.skip(i as int),
                    name@,
                ),
                key@ == name@,
            decreases n - i,
        {
            proof {
                assert(self@.sub_texture[i as int] == self.sub_texture@[i as int]@);
                assert(self@.sub_texture.skip(i as int)[0] == self@.sub_texture[i as int]);
                assert(self@.sub_texture.skip(i as int).drop_first() =~= self@.sub_texture.skip(
                    i as int + 1,
                ));
            }
            if self.sub_texture[i].name == key {
                return Some(&self.sub_texture[i]);
            }
            i = i + 1;
        }
        proof {
            assert(self@.sub_texture.skip(n as int) =~= Seq::<SubTextureV>::empty());
        }
        None
    }

    /// Resolve a region name to its rectangle; an absent name is a hard
    /// error naming the region.
    pub fn lookup(&self, name: &str) -> (r: Result<&SubTexture, LoadError>)
        ensures
            match r {
                Ok(st) => region_at(self@.sub_texture, name@) == Some(st@),
                Err(e) => region_at(self@.sub_texture, name@) is None && e@
                    == crate::LoadErrorV::UnknownRegion(name@),
            },
    {
        match self.get_sub_texture(name) {
            Some(st) => Ok(st),
            None => Err(LoadError::UnknownRegion(name.to_owned())),
        }
    }
}


/// One region out of its manifest entry; every failure is a `ParseError`
/// naming the offending field.
fn sub_texture_from_json(v: &serde_json::Value) -> (r: Result<SubTexture, LoadError>)
    ensures
        r matches Err(e) ==> e@ is ParseError,
{
    let name = match req_string_member(v, "name", "subTexture.name") {
        Ok(s) => s,
        Err(e) => {
            return Err(e);
        },
    };
    let x = match req_i32_member(v, "x", "subTexture.x") {
        Ok(x) => x,
        Err(e) => {
            return Err(e);
        },
    };
    let y = match req_i32_member(v, "y", "subTexture.y") {
        Ok(x) => x,
        Err(e) => {
            return Err(e);
        },
    };
    let width = match req_i32_member(v, "width", "subTexture.width") {
        Ok(x) => x,
        Err(e) => {
            return Err(e);
        },
    };
    let height = match req_i32_member(v, "height", "subTexture.height") {
        Ok(x) => x,
        Err(e) => {
            return Err(e);
        },
    };
    Ok(SubTexture { name, x, y, width, height })
}

/// The atlas manifest out of its parsed document: image size and path, and
/// the region table under either of the manifest's two spellings.
///
/// The JSON tree is opaque to verification, so success cannot be related
/// to the input here; the contract fixes that every failure is a
/// `ParseError` naming the offending field. The exact contracts live on
/// the lookups over the resulting index.
pub fn atlas_from_json(v: &serde_json::Value) -> (r: Result<Atlas, LoadError>)
    ensures
        r matches Err(e) ==> e@ is ParseError,
{
    let width = match req_i32_member(v, "width", "atlas.width") {
        Ok(x) => x,
        Err(e) => {
            return Err(e);
        },
    };
    let height = match req_i32_member(v, "height", "atlas.height") {
        Ok(x) => x,
        Err(e) => {
            return Err(e);
        },
    };
    let image_path = match req_string_member(v, "imagePath", "atlas.imagePath") {
        Ok(s) => s,
        Err(e) => {
            return Err(e);
        },
    };
    let table = match json_member(v, "SubTexture") {
        Some(t) => t,
        None => match json_member(v, "subTexture") {
            Some(t) => t,
            None => {
                return Err(LoadError::ParseError("atlas.subTexture".to_owned()));
            },
        },
    };
    let entries = match json_array(table) {
        Some(a) => a,
        None => {
            return Err(LoadError::ParseError("atlas.subTexture".to_owned()));
        },
    };
    let mut sub_texture: Vec<SubTexture> = Vec::new();
    let n = entries.len();
    let mut i: usize = 0;
    while i < n
        invariant
            i <= n,
            n == entries@.len(),
        decreases n - i,
    {
        match sub_texture_from_json(&entries[i]) {
            Ok(st) => sub_texture.push(st),
            Err(e) => {
                return Err(e);
            },
        }
        i = i + 1;
    }
    Ok(Atlas { width, height, image_path, sub_texture })
}

/// Parse the atlas manifest from JSON text. Every failure is a
/// `ParseError`, and text that is not JSON at all always fails.
pub fn get_atlas(text: &str) -> (r: Result<Atlas, LoadError>)
    ensures
        r matches Err(e) ==> e@ is ParseError,
        !json_parses(text@) ==> r is Err,
{
    let v = match json_from_text(text) {
        Ok(v) => v,
        Err(_) => {
            return Err(LoadError::ParseError("atlas: malformed JSON".to_owned()));
        },
    };
    atlas_from_json(&v)
}

} // verus!
