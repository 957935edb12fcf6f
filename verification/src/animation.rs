//! Animation compiler and playback dispatch.
//!
//! Consumes the per-bone keyframe tracks together with the
//! name-to-identifier index and produces, per animated bone, a parallel
//! composition of sequenced eased motion segments addressed by node
//! identifier. Keyframes carry absolute samples; the replay primitive only
//! moves by deltas, so segment `i` covers keyframe `i`'s declared duration
//! and moves by the difference between samples `i+1` and `i`, chained in
//! strict order with no gaps. Every segment runs under one fixed easing
//! curve.
//!
//! Durations are compiled raw, in fixed-point frame units; dividing by the
//! program's `duration_divisor` (and by `FIXED_SCALE`) yields seconds. The
//! divisor is an explicit configuration constant carried by the compiled
//! program, applied at the playback boundary.

use vstd::prelude::*;
use crate::LoadError;
use crate::LoadErrorV;
use crate::character::{BoneTrack, Name, NameV, RotateKey, TrackV, TranslateKey};
use crate::fixed::FIXED_RAW_MAX;
use crate::scene::{
    index_has, index_id, index_wf, IdentityIndex, IdentityIndexV, NodeStore, running_map,
};

verus! {

/// The conventional divisor turning raw frame durations into
/// seconds.
pub const DEFAULT_DURATION_DIVISOR: u32 = 5;

/// The fixed easing curve every motion segment runs under; a compile-time
/// constant, not configurable per keyframe.
#[derive(Debug, Clone, Copy, PartialEq, Eq)]
pub enum Easing {
    CubicInOut,
}

/// Move by `(dx, dy)` fixed-point units over `duration` raw frame units.
#[derive(Debug, Clone, Copy, PartialEq, Eq)]
pub struct MoveSegment {
    pub duration: i64,
    pub dx: i64,
    pub dy: i64,
    pub ease: Easing,
}

/// Rotate by `dr` fixed-point units over `duration` raw frame units.
#[derive(Debug, Clone, Copy, PartialEq, Eq)]
pub struct RotateSegment {
    pub duration: i64,
    pub dr: i64,
    pub ease: Easing,
}

/// One bone's compiled composition: the channels present on its track run
/// concurrently; both must complete for the bone's animation to be done.
#[derive(Debug)]
pub struct BoneProgram {
    pub translate: Option<Vec<MoveSegment>>,
    pub rotate: Option<Vec<RotateSegment>>,
}

pub struct BoneProgramV {
    pub translate: Option<Seq<MoveSegment>>,
    pub rotate: Option<Seq<RotateSegment>>,
}

impl View for BoneProgram {
    type V = BoneProgramV;

    open spec fn view(&self) -> BoneProgramV {
        BoneProgramV {
            translate: match &self.translate {
                Some(v) => Some(v@),
                None => None,
            },
            rotate: match &self.rotate {
                Some(v) => Some(v@),
                None => None,
            },
        }
    }
}

/// All fields of a translation keyframe lie within the parsed scalar range,
/// so sample differences cannot overflow.
pub open spec fn translate_key_bounded(k: TranslateKey) -> bool {
    &&& -FIXED_RAW_MAX <= k.duration <= FIXED_RAW_MAX
    &&& -FIXED_RAW_MAX <= k.x <= FIXED_RAW_MAX
    &&& -FIXED_RAW_MAX <= k.y <= FIXED_RAW_MAX
}

pub open spec fn rotate_key_bounded(k: RotateKey) -> bool {
    &&& -FIXED_RAW_MAX <= k.duration <= FIXED_RAW_MAX
    &&& -FIXED_RAW_MAX <= k.rotate <= FIXED_RAW_MAX
}

pub open spec fn track_bounded(t: TrackV) -> bool {
    &&& match t.translate {
        Some(ks) => forall|i: int| 0 <= i < ks.len() ==> translate_key_bounded(#[trigger] ks[i]),
        None => true,
    }
    &&& match t.rotate {
        Some(ks) => forall|i: int| 0 <= i < ks.len() ==> rotate_key_bounded(#[trigger] ks[i]),
        None => true,
    }
}

/// `N` absolute keyframes compile to `N - 1` relative segments: segment `i`
/// takes keyframe `i`'s duration and moves by the difference between
/// samples `i + 1` and `i`, cubic-eased.
pub open spec fn move_segs_match(keys: Seq<TranslateKey>, segs: Seq<MoveSegment>) -> bool {
    &&& segs.len() == (if keys.len() == 0 {
        0int
    } else {
        keys.len() - 1
    })
    &&& forall|i: int|
        0 <= i < segs.len() ==> {
            let s = #[trigger] segs[i];
            s.duration == keys[i].duration && s.dx == keys[i + 1].x - keys[i].x && s.dy == keys[
                i + 1
            ].y - keys[i].y && s.ease == Easing::CubicInOut
        }
}

pub open spec fn rotate_segs_match(keys: Seq<RotateKey>, segs: Seq<RotateSegment>) -> bool {
    &&& segs.len() == (if keys.len() == 0 {
        0int
    } else {
        keys.len() - 1
    })
    &&& forall|i: int|
        0 <= i < segs.len() ==> {
            let s = #[trigger] segs[i];
            s.duration == keys[i].duration && s.dr == keys[i + 1].rotate - keys[i].rotate
                && s.ease == Easing::CubicInOut
        }
}

/// The tracks as their spec views, in order.
pub open spec fn tracks_view(ts: Seq<BoneTrack>) -> Seq<TrackV> {
    ts.map_values(|t: BoneTrack| t@)
}

/// The compiled entries as their spec views, in order.
pub open spec fn anims_view(s: Seq<(u64, BoneProgram)>) -> Seq<(u64, BoneProgramV)> {
    s.map_values(|e: (u64, BoneProgram)| (e.0, e.1@))
}

/// A track animates its bone when at least one channel is present.
pub open spec fn track_has_channel(t: TrackV) -> bool {
    t.translate is Some || t.rotate is Some
}

/// The tracks that produce a program entry, in declaration order.
pub open spec fn animated_tracks(ts: Seq<TrackV>) -> Seq<TrackV> {
    ts.filter(|t: TrackV| track_has_channel(t))
}

/// The compiled program has the channels its track has, segment for
/// segment.
pub open spec fn program_matches_track(t: TrackV, p: BoneProgramV) -> bool {
    &&& match (t.translate, p.translate) {
        (Some(ks), Some(segs)) => move_segs_match(ks, segs),
        (None, None) => true,
        _ => false,
    }
    &&& match (t.rotate, p.rotate) {
        (Some(ks), Some(segs)) => rotate_segs_match(ks, segs),
        (None, None) => true,
        _ => false,
    }
}

/// The name of the first track whose bone is absent from the index.
pub open spec fn first_missing_target(ts: Seq<TrackV>, ix: IdentityIndexV) -> Option<Seq<char>>
    decreases ts.len(),
{
    if ts.len() == 0 {
        None
    } else if !index_has(ix, NameV::Bone(ts[0].name)) {
        Some(ts[0].name)
    } else {
        first_missing_target(ts.drop_first(), ix)
    }
}

/// One program entry per animated track, in order, each addressed to the
/// identifier its bone name resolves to.
pub open spec fn anims_match(
    ts: Seq<TrackV>,
    ix: IdentityIndexV,
    anims: Seq<(u64, BoneProgramV)>,
) -> bool {
    let f = animated_tracks(ts);
    &&& anims.len() == f.len()
    &&& forall|i: int|
        0 <= i < f.len() ==> (#[trigger] anims[i]).0 == index_id(ix, NameV::Bone(f[i].name))
            && program_matches_track(f[i], anims[i].1)
}

/// The compiled animation program: per-bone compositions addressed by node
/// identifier, the root's identifier, and the duration divisor.
#[derive(Debug)]
pub struct Animations {
    pub anims: Vec<(u64, BoneProgram)>,
    pub root_id: u64,
    pub duration_divisor: u32,
}

/// Compile a translation channel: absolute keyframes to sequenced eased
/// deltas.
pub fn from_dragon_translation(frames: &Vec<TranslateKey>) -> (segs: Vec<MoveSegment>)
    requires
        forall|i: int|
            0 <= i < frames@.len() ==> translate_key_bounded(#[trigger] frames@[i]),
    ensures
        move_segs_match(frames@, segs@),
{
    let n = frames.len();
    let mut segs: Vec<MoveSegment> = Vec::new();
    if n == 0 {
        return segs;
    }
    let mut idx: usize = 1;
    while idx < n
        invariant
            1 <= idx <= n,
            n == frames@.len(),
            forall|i: int|
                0 <= i < frames@.len() ==> translate_key_bounded(#[trigger] frames@[i]),
            segs@.len() == idx - 1,
            forall|i: int|
                0 <= i < segs@.len() ==> {
                    let s = #[trigger] segs@[i];
                    s.duration == frames@[i].duration && s.dx == frames@[i + 1].x - frames@[i].x
                        && s.dy == frames@[i + 1].y - frames@[i].y && s.ease == Easing::CubicInOut
                },
        decreases n - idx,
    {
        let seg = MoveSegment {
            duration: frames[idx - 1].duration,
            dx: frames[idx].x - frames[idx - 1].x,
            dy: frames[idx].y - frames[idx - 1].y,
            ease: Easing::CubicInOut,
        };
        segs.push(seg);
        idx = idx + 1;
    }
    segs
}

/// Compile a rotation channel: absolute angle keyframes to sequenced eased
/// deltas.
pub fn from_dragon_rotation(frames: &Vec<RotateKey>) -> (segs: Vec<RotateSegment>)
    requires
        forall|i: int| 0 <= i < frames@.len() ==> rotate_key_bounded(#[trigger] frames@[i]),
    ensures
        rotate_segs_match(frames@, segs@),
{
    let n = frames.len();
    let mut segs: Vec<RotateSegment> = Vec::new();
    if n == 0 {
        return segs;
    }
    let mut idx: usize = 1;
    while idx < n
        invariant
            1 <= idx <= n,
            n == frames@.len(),
            forall|i: int| 0 <= i < frames@.len() ==> rotate_key_bounded(#[trigger] frames@[i]),
            segs@.len() == idx - 1,
            forall|i: int|
                0 <= i < segs@.len() ==> {
                    let s = #[trigger] segs@[i];
                    s.duration == frames@[i].duration && s.dr == frames@[i + 1].rotate - frames@[
                        i
                    ].rotate && s.ease == Easing::CubicInOut
                },
        decreases n - idx,
    {
        let seg = RotateSegment {
            duration: frames[idx - 1].duration,
            dr: frames[idx].rotate - frames[idx - 1].rotate,
            ease: Easing::CubicInOut,
        };
        segs.push(seg);
        idx = idx + 1;
    }
    segs
}

impl Animations {
    /// Compile the animation tracks against the identity index.
    ///
    /// Fails with `UnknownAnimationTarget` exactly on the first track whose
    /// bone name is absent from the index. Tracks without channels produce
    /// no entry; a channel with fewer than two keyframes compiles to an
    /// empty segment sequence.
    pub fn from_dragon(
        tracks: &Vec<BoneTrack>,
        index: &IdentityIndex,
        root_id: u64,
        duration_divisor: u32,
    ) -> (r: Result<Animations, LoadError>)
        requires
            index_wf(index@),
            forall|i: int| 0 <= i < tracks@.len() ==> track_bounded(#[trigger] tracks@[i]@),
        ensures
            match r {
                Ok(a) => first_missing_target(tracks_view(tracks@), index@) is None && a.root_id
                    == root_id && a.duration_divisor == duration_divisor && anims_match(
                    tracks_view(tracks@),
                    index@,
                    anims_view(a.anims@),
                ),
                Err(e) => match first_missing_target(tracks_view(tracks@), index@) {
                    Some(nm) => e@ == LoadErrorV::UnknownAnimationTarget(nm),
                    None => false,
                },
            },
    {
        let ghost tsv = tracks_view(tracks@);
        let mut anims: Vec<(u64, BoneProgram)> = Vec::new();
        let n = tracks.len();
        let mut i: usize = 0;
        proof {
            assert(tsv.take(0) =~= Seq::<TrackV>::empty());
            assert(tsv.skip(0) =~= tsv);
            reveal(Seq::filter);
            assert(anims_view(anims@) =~= Seq::<(u64, BoneProgramV)>::empty());
        }
        while i < n
            invariant
                i <= n,
                n == tracks@.len(),
                tsv == tracks_view(tracks@),
                index_wf(index@),
                forall|j: int| 0 <= j < tracks@.len() ==> track_bounded(#[trigger] tracks@[j]@),
                first_missing_target(tsv, index@) == first_missing_target(
                    tsv.skip(i as int),
                    index@,
                ),
                anims_match(tsv.take(i as int), index@, anims_view(anims@)),
            decreases n - i,
        {
            proof {
                assert(tsv[i as int] == tracks@[i as int]@);
                assert(tsv.skip(i as int)[0] == tsv[i as int]);
                assert(tsv.skip(i as int).drop_first() =~= tsv.skip(i as int + 1));
            }
            let track = &tracks[i];
            let target = Name::BoneName(track.name.clone());
            let id = match index.id_of(&target) {
                Some(id) => id,
                None => {
                    return Err(LoadError::UnknownAnimationTarget(track.name.clone()));
                },
            };
            let has_translate = track.translate.is_some();
            let has_rotate = track.rotate.is_some();
            if has_translate || has_rotate {
                proof {
                    assert(track_bounded(tracks@[i as int]@));
                }
                let translate = match &track.translate {
                    Some(keys) => {
                        proof {
                            let ghost tb = tsv[i as int];
                            assert(tb.translate == Some(keys@));
                            assert forall|j: int|
                                0 <= j < keys@.len() implies translate_key_bounded(
                                #[trigger] keys@[j],
                            ) by {
                                assert(track_bounded(tb));
                                assert(translate_key_bounded(tb.translate->Some_0[j]));
                            }
                        }
                        Some(from_dragon_translation(keys))
                    },
                    None => None,
                };
                let rotate = match &track.rotate {
                    Some(keys) => {
                        proof {
                            let ghost tb = tsv[i as int];
                            assert(tb.rotate == Some(keys@));
                            assert forall|j: int|
                                0 <= j < keys@.len() implies rotate_key_bounded(
                                #[trigger] keys@[j],
                            ) by {
                                assert(track_bounded(tb));
                                assert(rotate_key_bounded(tb.rotate->Some_0[j]));
                            }
                        }
                        Some(from_dragon_rotation(keys))
                    },
                    None => None,
                };
                let program = BoneProgram { translate, rotate };
                proof {
                    let av = anims_view(anims@);
                    let av2 = anims_view(anims@.push((id, program)));
                    assert(av2 =~= av.push((id, program@)));
                    reveal(Seq::filter);
                    assert(tsv.take(i as int + 1).drop_last() =~= tsv.take(i as int));
                    assert(tsv.take(i as int + 1).last() == tsv[i as int]);
                    assert(animated_tracks(tsv.take(i as int + 1)) =~= animated_tracks(
                        tsv.take(i as int),
                    ).push(tsv[i as int]));
                    assert(program_matches_track(tsv[i as int], program@));
                }
                anims.push((id, program));
            } else {
                proof {
                    reveal(Seq::filter);
                    assert(tsv.take(i as int + 1).drop_last() =~= tsv.take(i as int));
                    assert(tsv.take(i as int + 1).last() == tsv[i as int]);
                    assert(animated_tracks(tsv.take(i as int + 1)) =~= animated_tracks(
                        tsv.take(i as int),
                    ));
                }
            }
            i = i + 1;
        }
        proof {
            assert(tsv.skip(n as int) =~= Seq::<TrackV>::empty());
            assert(tsv.take(n as int) =~= tsv);
        }
        Ok(Animations { anims, root_id, duration_divisor })
    }

    /// Start every compiled composition on its node: the dispatch log is
    /// extended by exactly one start per entry, in program order. At the
    /// scheduler level a later start for a node replaces the earlier one,
    /// so re-running is idempotent.
    pub fn play(&self, scene: &mut NodeStore)
        ensures
            final(scene).nodes == old(scene).nodes,
            anims_view(final(scene).running@) == anims_view(old(scene).running@) + anims_view(
                self.anims@,
            ),
            running_map(final(scene).running@) == running_map(
                old(scene).running@,
            ).union_prefer_right(running_map(self.anims@)),
    {
        let n = self.anims.len();
        let mut i: usize = 0;
        proof {
            assert(self.anims@.take(0) =~= Seq::<(u64, BoneProgram)>::empty());
            assert(running_map(scene.running@) =~= running_map(
                old(scene).running@,
            ).union_prefer_right(running_map(self.anims@.take(0))));
            assert(anims_view(scene.running@) =~= anims_view(old(scene).running@) + anims_view(
                self.anims@.take(0),
            ));
        }
        while i < n
            invariant
                i <= n,
                n == self.anims@.len(),
                scene.nodes == old(scene).nodes,
                running_map(scene.running@) == running_map(old(scene).running@).union_prefer_right(
                    running_map(self.anims@.take(i as int)),
                ),
                anims_view(scene.running@) == anims_view(old(scene).running@) + anims_view(
                    self.anims@.take(i as int),
                ),
            decreases n - i,
        {
            let id = self.anims[i].0;
            let program = clone_program(&self.anims[i].1);
            let ghost before = scene.running@;
            scene.run_composition(id, program);
            proof {
                assert(self.anims@.take(i as int + 1).drop_last() =~= self.anims@.take(i as int));
                assert(self.anims@.take(i as int + 1).last() == self.anims@[i as int]);
                assert(running_map(self.anims@.take(i as int + 1)) =~= running_map(
                    self.anims@.take(i as int),
                ).insert(self.anims@[i as int].0, self.anims@[i as int].1@));
                assert(program@ == self.anims@[i as int].1@);
                assert(running_map(scene.running@) =~= running_map(
                    old(scene).running@,
                ).union_prefer_right(running_map(self.anims@.take(i as int + 1))));
                assert(anims_view(scene.running@) =~= anims_view(before).push((id, program@)));
                assert(anims_view(self.anims@.take(i as int + 1)) =~= anims_view(
                    self.anims@.take(i as int),
                ).push((self.anims@[i as int].0, self.anims@[i as int].1@)));
                assert(anims_view(scene.running@) =~= anims_view(old(scene).running@)
                    + anims_view(self.anims@.take(i as int + 1)));
            }
            i = i + 1;
        }
        proof {
            assert(self.anims@.take(n as int) =~= self.anims@);
        }
    }
}

/// Copy a composition for dispatch; the store receives its own copy.
fn clone_program(p: &BoneProgram) -> (r: BoneProgram)
    ensures
        r@ == p@,
{
    let translate = match &p.translate {
        Some(v) => {
            let c = v.clone();
            proof {
                assert(c@ =~= v@);
            }
            Some(c)
        },
        None => None,
    };
    let rotate = match &p.rotate {
        Some(v) => {
            let c = v.clone();
            proof {
                assert(c@ =~= v@);
            }
            Some(c)
        },
        None => None,
    };
    BoneProgram { translate, rotate }
}

} // verus!
