//! Skeleton document model.
//!
//! A typed view over the parsed skeleton document: the ordered slot records
//! (renderable leaves bound to a texture region), the bone records
//! (non-renderable pivots), and the per-bone keyframe tracks. All fractional
//! quantities are held as fixed-point scalars (see `crate::fixed`).

use vstd::prelude::*;
use crate::LoadError;
use crate::fields::{opt_fixed_member, opt_string_member, req_fixed_member, req_string_member};
use crate::fixed::FIXED_SCALE;
use crate::json::{json_array, json_element, json_from_text, json_member, json_parses};

verus! {

/// A node identity. Slot and bone namespaces may collide, so every lookup
/// keys on this discriminated name, never on the bare string.
#[derive(Debug, Clone, PartialEq, Eq, Hash)]
pub enum Name {
    SlotName(String),
    BoneName(String),
}

/// Spec-level identity: the discriminated name over character sequences.
pub enum NameV {
    Slot(Seq<char>),
    Bone(Seq<char>),
}

impl View for Name {
    type V = NameV;

    open spec fn view(&self) -> NameV {
        match self {
            Name::SlotName(s) => NameV::Slot(s@),
            Name::BoneName(s) => NameV::Bone(s@),
        }
    }
}

/// Compare two identities: true exactly when the views are equal.
pub fn name_eq(a: &Name, b: &Name) -> (r: bool)
    ensures
        r == (a@ == b@),
{
    match (a, b) {
        (Name::SlotName(x), Name::SlotName(y)) => *x == *y,
        (Name::BoneName(x), Name::BoneName(y)) => *x == *y,
        _ => false,
    }
}

/// A node's local transform: offset, scale and a skew angle standing in for
/// rotation, in fixed-point units.
#[derive(Debug, Clone, Copy, PartialEq, Eq)]
pub struct Transform {
    pub x: i64,
    pub y: i64,
    pub sc_x: i64,
    pub sc_y: i64,
    pub sk_x: i64,
}

/// The identity transform: no offset, unit scale, no skew.
pub open spec fn identity_transform() -> Transform {
    Transform { x: 0, y: 0, sc_x: FIXED_SCALE, sc_y: FIXED_SCALE, sk_x: 0 }
}

impl Transform {
    /// The identity transform.
    pub fn empty() -> (t: Transform)
        ensures
            t == identity_transform(),
    {
        Transform { x: 0, y: 0, sc_x: FIXED_SCALE, sc_y: FIXED_SCALE, sk_x: 0 }
    }
}

/// One renderable leaf: a named attachment bound to a texture region, owned
/// by a parent bone.
#[derive(Debug, Clone)]
pub struct Slot {
    pub name: String,
    pub texture_name: String,
    pub parent: String,
    pub transform: Transform,
}

pub struct SlotV {
    pub name: Seq<char>,
    pub texture_name: Seq<char>,
    pub parent: Seq<char>,
    pub transform: Transform,
}

impl View for Slot {
    type V = SlotV;

    open spec fn view(&self) -> SlotV {
        SlotV {
            name: self.name@,
            texture_name: self.texture_name@,
            parent: self.parent@,
            transform: self.transform,
        }
    }
}

/// One non-renderable pivot. At most one bone of a well-formed document has
/// no parent; the assembler's synthesized root stands for it.
#[derive(Debug, Clone)]
pub struct Bone {
    pub name: String,
    pub parent: Option<String>,
    pub transform: Option<Transform>,
}

pub struct BoneV {
    pub name: Seq<char>,
    pub parent: Option<Seq<char>>,
    pub transform: Option<Transform>,
}

impl View for Bone {
    type V = BoneV;

    open spec fn view(&self) -> BoneV {
        BoneV {
            name: self.name@,
            parent: match self.parent {
                Some(p) => Some(p@),
                None => None,
            },
            transform: self.transform,
        }
    }
}

/// One translation keyframe: an absolute sample, with the time the track
/// rests on it before the next sample.
#[derive(Debug, Clone, Copy, PartialEq, Eq)]
pub struct TranslateKey {
    pub duration: i64,
    pub x: i64,
    pub y: i64,
}

/// One rotation keyframe: an absolute angle sample.
#[derive(Debug, Clone, Copy, PartialEq, Eq)]
pub struct RotateKey {
    pub duration: i64,
    pub rotate: i64,
}

/// The keyframe tracks of one bone: a translation channel, a rotation
/// channel, either may be absent.
#[derive(Debug, Clone)]
pub struct BoneTrack {
    pub name: String,
    pub translate: Option<Vec<TranslateKey>>,
    pub rotate: Option<Vec<RotateKey>>,
}

pub struct TrackV {
    pub name: Seq<char>,
    pub translate: Option<Seq<TranslateKey>>,
    pub rotate: Option<Seq<RotateKey>>,
}

impl View for BoneTrack {
    type V = TrackV;

    open spec fn view(&self) -> TrackV {
        TrackV {
            name: self.name@,
            translate: match &self.translate {
                Some(v) => Some(v@),
                None => None,
            },
            rotate: match &self.rotate {
                Some(v) => Some(v@),
                None => None,
            },
        }
    }
}

/// The skeleton document: slot records, bone records and animation tracks,
/// in declaration order.
#[derive(Debug, Clone)]
pub struct Character {
    pub slots: Vec<Slot>,
    pub bones: Vec<Bone>,
    pub animation: Vec<BoneTrack>,
}

pub struct CharacterV {
    pub slots: Seq<SlotV>,
    pub bones: Seq<BoneV>,
    pub animation: Seq<TrackV>,
}

impl View for Character {
    type V = CharacterV;

    open spec fn view(&self) -> CharacterV {
        CharacterV {
            slots: self.slots@.map_values(|s: Slot| s@),
            bones: self.bones@.map_values(|b: Bone| b@),
            animation: self.animation@.map_values(|t: BoneTrack| t@),
        }
    }
}


/// Every keyframe of every track lies within the parsed scalar range, so
/// compiling sample differences cannot overflow.
pub open spec fn character_bounded(c: CharacterV) -> bool {
    forall|t: int|
        0 <= t < c.animation.len() ==> crate::animation::track_bounded(#[trigger] c.animation[t])
}

/// A local transform out of its JSON object: missing fields take their
/// documented defaults — no offset, unit scale, no skew.
fn transform_from_json(v: &serde_json::Value, ctx: &str) -> (r: Result<Transform, LoadError>)
    ensures
        r matches Err(e) ==> e@ is ParseError,
{
    let x = match opt_fixed_member(v, "x", 0, ctx) {
        Ok(x) => x,
        Err(e) => {
            return Err(e);
        },
    };
    let y = match opt_fixed_member(v, "y", 0, ctx) {
        Ok(x) => x,
        Err(e) => {
            return Err(e);
        },
    };
    let sc_x = match opt_fixed_member(v, "scX", FIXED_SCALE, ctx) {
        Ok(x) => x,
        Err(e) => {
            return Err(e);
        },
    };
    let sc_y = match opt_fixed_member(v, "scY", FIXED_SCALE, ctx) {
        Ok(x) => x,
        Err(e) => {
            return Err(e);
        },
    };
    let sk_x = match opt_fixed_member(v, "skX", 0, ctx) {
        Ok(x) => x,
        Err(e) => {
            return Err(e);
        },
    };
    Ok(Transform { x, y, sc_x, sc_y, sk_x })
}

/// A slot record out of its skin entry: name, parent bone, and the first
/// display's texture name and transform.
fn slot_from_json(v: &serde_json::Value) -> (r: Result<Slot, LoadError>)
    ensures
        r matches Err(e) ==> e@ is ParseError,
{
    let name = match req_string_member(v, "name", "slot.name") {
        Ok(s) => s,
        Err(e) => {
            return Err(e);
        },
    };
    let parent = match req_string_member(v, "parent", "slot.parent") {
        Ok(s) => s,
        Err(e) => {
            return Err(e);
        },
    };
    let display = match json_member(v, "display") {
        Some(d) => d,
        None => {
            return Err(LoadError::ParseError("slot.display".to_owned()));
        },
    };
    let first = match json_element(display, 0) {
        Some(d) => d,
        None => {
            return Err(LoadError::ParseError("slot.display".to_owned()));
        },
    };
    let texture_name = match req_string_member(first, "name", "slot.display.name") {
        Ok(s) => s,
        Err(e) => {
            return Err(e);
        },
    };
    let tv = match json_member(first, "transform") {
        Some(t) => t,
        None => {
            return Err(LoadError::ParseError("slot.display.transform".to_owned()));
        },
    };
    let transform = match transform_from_json(tv, "slot.display.transform") {
        Ok(t) => t,
        Err(e) => {
            return Err(e);
        },
    };
    Ok(Slot { name, texture_name, parent, transform })
}

/// A bone record: name, optional parent, optional transform.
fn bone_from_json(v: &serde_json::Value) -> (r: Result<Bone, LoadError>)
    ensures
        r matches Err(e) ==> e@ is ParseError,
{
    let name = match req_string_member(v, "name", "bone.name") {
        Ok(s) => s,
        Err(e) => {
            return Err(e);
        },
    };
    let parent = match opt_string_member(v, "parent", "bone.parent") {
        Ok(p) => p,
        Err(e) => {
            return Err(e);
        },
    };
    let transform = match json_member(v, "transform") {
        Some(t) => match transform_from_json(t, "bone.transform") {
            Ok(t) => Some(t),
            Err(e) => {
                return Err(e);
            },
        },
        None => None,
    };
    Ok(Bone { name, parent, transform })
}

/// One keyframe track out of an animation entry; every sample it carries
/// is within the fixed-point range.
fn track_from_json(v: &serde_json::Value) -> (r: Result<BoneTrack, LoadError>)
    ensures
        r matches Ok(t) ==> crate::animation::track_bounded(t@),
        r matches Err(e) ==> e@ is ParseError,
{
    let name = match req_string_member(v, "name", "animation.bone.name") {
        Ok(s) => s,
        Err(e) => {
            return Err(e);
        },
    };
    let translate: Option<Vec<TranslateKey>> = match json_member(v, "translateFrame") {
        Some(frames) => {
            let arr = match json_array(frames) {
                Some(a) => a,
                None => {
                    return Err(LoadError::ParseError("translateFrame".to_owned()));
                },
            };
            let mut keys: Vec<TranslateKey> = Vec::new();
            let n = arr.len();
            let mut i: usize = 0;
            while i < n
                invariant
                    i <= n,
                    n == arr@.len(),
                    forall|k: int|
                        0 <= k < keys@.len() ==> crate::animation::translate_key_bounded(
                            #[trigger] keys@[k],
                        ),
                decreases n - i,
            {
                let duration = match req_fixed_member(&arr[i], "duration", "translateFrame.duration") {
                    Ok(x) => x,
                    Err(e) => {
                        return Err(e);
                    },
                };
                let x = match req_fixed_member(&arr[i], "x", "translateFrame.x") {
                    Ok(x) => x,
                    Err(e) => {
                        return Err(e);
                    },
                };
                let y = match req_fixed_member(&arr[i], "y", "translateFrame.y") {
                    Ok(x) => x,
                    Err(e) => {
                        return Err(e);
                    },
                };
                keys.push(TranslateKey { duration, x, y });
                i = i + 1;
            }
            Some(keys)
        },
        None => None,
    };
    let rotate: Option<Vec<RotateKey>> = match json_member(v, "rotateFrame") {
        Some(frames) => {
            let arr = match json_array(frames) {
                Some(a) => a,
                None => {
                    return Err(LoadError::ParseError("rotateFrame".to_owned()));
                },
            };
            let mut keys: Vec<RotateKey> = Vec::new();
            let n = arr.len();
            let mut i: usize = 0;
            while i < n
                invariant
                    i <= n,
                    n == arr@.len(),
                    forall|k: int|
                        0 <= k < keys@.len() ==> crate::animation::rotate_key_bounded(
                            #[trigger] keys@[k],
                        ),
                decreases n - i,
            {
                let duration = match req_fixed_member(&arr[i], "duration", "rotateFrame.duration") {
                    Ok(x) => x,
                    Err(e) => {
                        return Err(e);
                    },
                };
                let rot = match req_fixed_member(&arr[i], "rotate", "rotateFrame.rotate") {
                    Ok(x) => x,
                    Err(e) => {
                        return Err(e);
                    },
                };
                keys.push(RotateKey { duration, rotate: rot });
                i = i + 1;
            }
            Some(keys)
        },
        None => None,
    };
    Ok(BoneTrack { name, translate, rotate })
}

/// The skeleton document out of its parsed JSON tree: the slot records
/// under `armature[0].skin[0].slot`, the bone records under
/// `armature[0].bone`, and the optional animation tracks under
/// `armature[0].animation[0].bone` — absent animation yields an empty
/// track list, not an error.
///
/// The JSON tree is opaque to verification: the contract fixes that every
/// failure is a `ParseError` naming the offending field and that every
/// parsed keyframe is within the fixed-point range; the exact contracts
/// live on assembly and compilation over the result.
pub fn character_from_json(v: &serde_json::Value) -> (r: Result<Character, LoadError>)
    ensures
        r matches Ok(c) ==> character_bounded(c@),
        r matches Err(e) ==> e@ is ParseError,
{
    let armature = match json_member(v, "armature") {
        Some(a) => match json_element(a, 0) {
            Some(a0) => a0,
            None => {
                return Err(LoadError::ParseError("armature".to_owned()));
            },
        },
        None => {
            return Err(LoadError::ParseError("armature".to_owned()));
        },
    };
    let slot_arr = match json_member(armature, "skin") {
        Some(sk) => match json_element(sk, 0) {
            Some(sk0) => match json_member(sk0, "slot") {
                Some(sl) => match json_array(sl) {
                    Some(a) => a,
                    None => {
                        return Err(LoadError::ParseError("skin.slot".to_owned()));
                    },
                },
                None => {
                    return Err(LoadError::ParseError("skin.slot".to_owned()));
                },
            },
            None => {
                return Err(LoadError::ParseError("skin".to_owned()));
            },
        },
        None => {
            return Err(LoadError::ParseError("skin".to_owned()));
        },
    };
    let mut slots: Vec<Slot> = Vec::new();
    let ns = slot_arr.len();
    let mut i: usize = 0;
    while i < ns
        invariant
            i <= ns,
            ns == slot_arr@.len(),
        decreases ns - i,
    {
        match slot_from_json(&slot_arr[i]) {
            Ok(s) => slots.push(s),
            Err(e) => {
                return Err(e);
            },
        }
        i = i + 1;
    }
    let bone_arr = match json_member(armature, "bone") {
        Some(b) => match json_array(b) {
            Some(a) => a,
            None => {
                return Err(LoadError::ParseError("bone".to_owned()));
            },
        },
        None => {
            return Err(LoadError::ParseError("bone".to_owned()));
        },
    };
    let mut bones: Vec<Bone> = Vec::new();
    let nb = bone_arr.len();
    let mut j: usize = 0;
    while j < nb
        invariant
            j <= nb,
            nb == bone_arr@.len(),
        decreases nb - j,
    {
        match bone_from_json(&bone_arr[j]) {
            Ok(b) => bones.push(b),
            Err(e) => {
                return Err(e);
            },
        }
        j = j + 1;
    }
    let mut animation: Vec<BoneTrack> = Vec::new();
    match json_member(armature, "animation") {
        None => {},
        Some(anim) => {
            match json_element(anim, 0) {
                None => {},
                Some(a0) => {
                    let track_arr = match json_member(a0, "bone") {
                        Some(t) => match json_array(t) {
                            Some(a) => a,
                            None => {
                                return Err(LoadError::ParseError("animation.bone".to_owned()));
                            },
                        },
                        None => {
                            return Err(LoadError::ParseError("animation.bone".to_owned()));
                        },
                    };
                    let nt = track_arr.len();
                    let mut t: usize = 0;
                    while t < nt
                        invariant
                            t <= nt,
                            nt == track_arr@.len(),
                            forall|k: int|
                                0 <= k < animation@.len() ==> crate::animation::track_bounded(
                                    #[trigger] animation@[k]@,
                                ),
                        decreases nt - t,
                    {
                        match track_from_json(&track_arr[t]) {
                            Ok(tr) => animation.push(tr),
                            Err(e) => {
                                return Err(e);
                            },
                        }
                        t = t + 1;
                    }
                },
            }
        },
    }
    proof {
        assert(forall|k: int|
            0 <= k < animation@.len() ==> crate::animation::track_bounded(
                #[trigger] animation@[k]@,
            ));
    }
    let c = Character { slots, bones, animation };
    proof {
        assert forall|t: int| 0 <= t < c@.animation.len() implies crate::animation::track_bounded(
            #[trigger] c@.animation[t],
        ) by {
            assert(c@.animation[t] == c.animation@[t]@);
        }
    }
    Ok(c)
}

/// Parse the skeleton document from JSON text. Every failure is a
/// `ParseError`, and text that is not JSON at all always fails.
pub fn get_character(text: &str) -> (r: Result<Character, LoadError>)
    ensures
        r matches Ok(c) ==> character_bounded(c@),
        r matches Err(e) ==> e@ is ParseError,
        !json_parses(text@) ==> r is Err,
{
    let v = match json_from_text(text) {
        Ok(v) => v,
        Err(_) => {
            return Err(LoadError::ParseError("skeleton: malformed JSON".to_owned()));
        },
    };
    character_from_json(&v)
}

} // verus!
