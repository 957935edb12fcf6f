//! Scene graph assembler.
//!
//! Builds the scene in two phases, as the ownership rules of the node store
//! demand. First every record is staged: each slot resolves its texture
//! rectangle and each bone its transform, and every created node is parked
//! in the identity index under its identity, addressable until it is moved.
//! Then the synthesized root is inserted directly into the store, and
//! resolution sweeps move each staged node under its parent — a node is
//! attached only once its parent is store-resident, so declaration order
//! never matters. A bone other than the one the synthesized root stands
//! for must carry a parent; a record whose parent name answers to no
//! identity fails with `UnknownParent`, and so does one whose parent chain
//! never reaches the root. Any failure aborts the whole assembly: no store
//! is returned, no partial scene exists.
//!
//! Identifiers are assigned at staging time, one per index position —
//! position `p` holds identifier `p + 1`; the synthesized root holds
//! identifier 0 — and never change when a node moves into the store.

use vstd::prelude::*;
use crate::LoadError;
use crate::LoadErrorV;
use crate::atlas::{region_at, Atlas, AtlasV, SubTextureV};
use crate::character::{
    identity_transform, Bone, BoneV, Character, CharacterV, Name, NameV, Slot, SlotV, Transform,
};
use crate::scene::{
    chain_root, index_has, index_id, index_pos, index_wf, lemma_chain_root_zero,
    lemma_store_push_wf, parent_linked, place_id, store_contains_id, store_rooted, store_wf,
    IdentityIndex, IdentityIndexV, Node, NodeKind, NodeStore, Placement, Rect, StoreNode,
};

verus! {

/// The name the synthesized root answers to.
pub open spec fn root_name() -> Seq<char> {
    "root"@
}

/// A bone record named like the root is merged with the synthesized root:
/// it is never staged and never yields a node of its own.
pub open spec fn bone_skipped(b: BoneV) -> bool {
    b.name == root_name()
}

// ---------------------------------------------------------------------
// Identifier assignment: index position `p` gets identifier `p + 1`.
// ---------------------------------------------------------------------

pub open spec fn slot_names_of(slots: Seq<SlotV>) -> Seq<NameV> {
    slots.map_values(|s: SlotV| NameV::Slot(s.name))
}

/// The identities of the bones that are staged, in declaration order.
pub open spec fn nonroot_bone_names(bones: Seq<BoneV>) -> Seq<NameV>
    decreases bones.len(),
{
    if bones.len() == 0 {
        Seq::empty()
    } else if bone_skipped(bones.last()) {
        nonroot_bone_names(bones.drop_last())
    } else {
        nonroot_bone_names(bones.drop_last()).push(NameV::Bone(bones.last().name))
    }
}

/// How many staged bones precede bone `j` in declaration order.
pub open spec fn nonroot_rank(bones: Seq<BoneV>, j: int) -> int {
    nonroot_bone_names(bones.take(j)).len() as int
}

/// The index position of bone `j`'s entry (when the bone is staged).
pub open spec fn bone_pos(doc: CharacterV, j: int) -> int {
    doc.slots.len() + nonroot_rank(doc.bones, j)
}

/// Every identity the index holds after staging, in order: slots, staged
/// bones, then the synthesized root.
pub open spec fn index_names_of(doc: CharacterV) -> Seq<NameV> {
    slot_names_of(doc.slots) + nonroot_bone_names(doc.bones) + seq![NameV::Bone(root_name())]
}

/// The rectangle a slot draws, out of the atlas.
pub open spec fn rect_of(st: SubTextureV) -> Rect {
    Rect { x: st.x, y: st.y, width: st.width, height: st.height }
}

/// The node staged for slot `i`.
pub open spec fn slot_node(doc: CharacterV, atlas: AtlasV, i: int) -> Node {
    let s = doc.slots[i];
    Node {
        id: (i + 1) as u64,
        kind: NodeKind::Slot(rect_of(region_at(atlas.sub_texture, s.texture_name)->Some_0)),
        transform: s.transform,
    }
}

/// The node staged for bone `j`: its transform, or the identity transform
/// when the record carries none.
pub open spec fn bone_node(doc: CharacterV, j: int) -> Node {
    let b = doc.bones[j];
    Node {
        id: (bone_pos(doc, j) + 1) as u64,
        kind: NodeKind::Bone,
        transform: match b.transform {
            Some(t) => t,
            None => identity_transform(),
        },
    }
}

/// The synthesized root's node.
pub open spec fn root_node() -> Node {
    Node { id: 0, kind: NodeKind::Bone, transform: identity_transform() }
}

// ---------------------------------------------------------------------
// The error scan: what assembly returns, decided by the records alone.
// ---------------------------------------------------------------------

/// Slot `i` reuses the identity of an earlier slot.
pub open spec fn slot_dup(slots: Seq<SlotV>, i: int) -> bool {
    exists|j: int| 0 <= j < i && (#[trigger] slots[j].name) == slots[i].name
}

/// Bone `i` reuses the identity of an earlier staged bone.
pub open spec fn bone_dup(bones: Seq<BoneV>, i: int) -> bool {
    exists|j: int|
        0 <= j < i && !bone_skipped(#[trigger] bones[j]) && bones[j].name == bones[i].name
}

/// The first staging error among the slots at or after `i`: a region absent
/// from the atlas, or a duplicate identity.
pub open spec fn slot_stage_err_from(slots: Seq<SlotV>, atlas: AtlasV, i: int) -> Option<
    LoadErrorV,
>
    decreases slots.len() - i when 0 <= i <= slots.len()
{
    if i == slots.len() {
        None
    } else if region_at(atlas.sub_texture, slots[i].texture_name) is None {
        Some(LoadErrorV::UnknownRegion(slots[i].texture_name))
    } else if slot_dup(slots, i) {
        Some(LoadErrorV::DuplicateIdentity(NameV::Slot(slots[i].name)))
    } else {
        slot_stage_err_from(slots, atlas, i + 1)
    }
}

/// The first staging error among the bones at or after `i`: a bone other
/// than the root that lacks the required parent field, or a duplicate
/// identity. The `ParseError` carries the offending bone's name.
pub open spec fn bone_stage_err_from(bones: Seq<BoneV>, i: int) -> Option<LoadErrorV>
    decreases bones.len() - i when 0 <= i <= bones.len()
{
    if i == bones.len() {
        None
    } else if !bone_skipped(bones[i]) && bones[i].parent is None {
        Some(LoadErrorV::ParseError(bones[i].name))
    } else if !bone_skipped(bones[i]) && bone_dup(bones, i) {
        Some(LoadErrorV::DuplicateIdentity(NameV::Bone(bones[i].name)))
    } else {
        bone_stage_err_from(bones, i + 1)
    }
}

pub open spec fn stage_err(doc: CharacterV, atlas: AtlasV) -> Option<LoadErrorV> {
    match slot_stage_err_from(doc.slots, atlas, 0) {
        Some(e) => Some(e),
        None => bone_stage_err_from(doc.bones, 0),
    }
}

/// A parent name answers to an identity: the synthesized root's, or some
/// bone's.
pub open spec fn parent_known(bones: Seq<BoneV>, p: Seq<char>) -> bool {
    p == root_name() || exists|j: int| 0 <= j < bones.len() && (#[trigger] bones[j].name) == p
}

/// The first slot at or after `i` whose parent name answers to nothing.
pub open spec fn slot_dangling_from(doc: CharacterV, i: int) -> Option<LoadErrorV>
    decreases doc.slots.len() - i when 0 <= i <= doc.slots.len()
{
    if i == doc.slots.len() {
        None
    } else if !parent_known(doc.bones, doc.slots[i].parent) {
        Some(LoadErrorV::UnknownParent(doc.slots[i].parent))
    } else {
        slot_dangling_from(doc, i + 1)
    }
}

/// The first staged, parented bone at or after `i` whose parent name
/// answers to nothing.
pub open spec fn bone_dangling_from(doc: CharacterV, i: int) -> Option<LoadErrorV>
    decreases doc.bones.len() - i when 0 <= i <= doc.bones.len()
{
    if i == doc.bones.len() {
        None
    } else if !bone_skipped(doc.bones[i]) && doc.bones[i].parent is Some && !parent_known(
        doc.bones,
        doc.bones[i].parent->Some_0,
    ) {
        Some(LoadErrorV::UnknownParent(doc.bones[i].parent->Some_0))
    } else {
        bone_dangling_from(doc, i + 1)
    }
}

pub open spec fn dangling_err(doc: CharacterV) -> Option<LoadErrorV> {
    match slot_dangling_from(doc, 0) {
        Some(e) => Some(e),
        None => bone_dangling_from(doc, 0),
    }
}

/// Some bone carries this name.
pub open spec fn has_bone(bones: Seq<BoneV>, p: Seq<char>) -> bool {
    exists|j: int| 0 <= j < bones.len() && (#[trigger] bones[j].name) == p
}

/// The position of the bone carrying this name (well defined when present
/// and names are distinct).
pub open spec fn bone_at(bones: Seq<BoneV>, p: Seq<char>) -> int {
    choose|j: int| 0 <= j < bones.len() && (#[trigger] bones[j].name) == p
}

/// The parent chain from name `p` reaches the root within `fuel` steps.
pub open spec fn reaches_root(bones: Seq<BoneV>, p: Seq<char>, fuel: nat) -> bool
    decreases fuel,
{
    if p == root_name() {
        true
    } else if !has_bone(bones, p) {
        false
    } else {
        match bones[bone_at(bones, p)].parent {
            None => false,
            Some(pp) => fuel > 0 && reaches_root(bones, pp, (fuel - 1) as nat),
        }
    }
}

/// A parent name is resolvable when its chain reaches the root within as
/// many steps as the document has records.
pub open spec fn resolvable(doc: CharacterV, p: Seq<char>) -> bool {
    reaches_root(doc.bones, p, (doc.slots.len() + doc.bones.len()) as nat)
}

/// The first slot at or after `i` whose parent chain never reaches the
/// root.
pub open spec fn slot_stuck_from(doc: CharacterV, i: int) -> Option<LoadErrorV>
    decreases doc.slots.len() - i when 0 <= i <= doc.slots.len()
{
    if i == doc.slots.len() {
        None
    } else if !resolvable(doc, doc.slots[i].parent) {
        Some(LoadErrorV::UnknownParent(doc.slots[i].parent))
    } else {
        slot_stuck_from(doc, i + 1)
    }
}

/// The first staged, parented bone at or after `i` whose parent chain never
/// reaches the root.
pub open spec fn bone_stuck_from(doc: CharacterV, i: int) -> Option<LoadErrorV>
    decreases doc.bones.len() - i when 0 <= i <= doc.bones.len()
{
    if i == doc.bones.len() {
        None
    } else if !bone_skipped(doc.bones[i]) && doc.bones[i].parent is Some && !resolvable(
        doc,
        doc.bones[i].parent->Some_0,
    ) {
        Some(LoadErrorV::UnknownParent(doc.bones[i].parent->Some_0))
    } else {
        bone_stuck_from(doc, i + 1)
    }
}

pub open spec fn stuck_err(doc: CharacterV) -> Option<LoadErrorV> {
    match slot_stuck_from(doc, 0) {
        Some(e) => Some(e),
        None => bone_stuck_from(doc, 0),
    }
}

/// Everything assembly can reject, in the order the phases run: staging
/// errors, then dangling parents, then unresolvable parent chains.
pub open spec fn assemble_err(doc: CharacterV, atlas: AtlasV) -> Option<LoadErrorV> {
    match stage_err(doc, atlas) {
        Some(e) => Some(e),
        None => match dangling_err(doc) {
            Some(e) => Some(e),
            None => stuck_err(doc),
        },
    }
}

// ---------------------------------------------------------------------
// The resolution invariant: what holds of index and store between any two
// attachments.
// ---------------------------------------------------------------------

/// A node with this payload and owner is in the store.
pub open spec fn store_has_node(s: Seq<StoreNode>, n: Node, parent: Option<u64>) -> bool {
    exists|k: int| 0 <= k < s.len() && (#[trigger] s[k]) == StoreNode { node: n, parent }
}

/// How many of the first `upto` index entries are inserted.
pub open spec fn inserted_count(places: Seq<Placement>, upto: int) -> int
    decreases upto when 0 <= upto <= places.len()
{
    if upto <= 0 {
        0
    } else {
        inserted_count(places, upto - 1) + if places[upto - 1] is Inserted {
            1int
        } else {
            0int
        }
    }
}

/// Slot `i`'s entry is faithful: staged with its created node and not yet
/// in the store, or inserted in the store under its declared parent.
pub open spec fn slot_entry_ok(
    doc: CharacterV,
    atlas: AtlasV,
    ix: IdentityIndexV,
    nodes: Seq<StoreNode>,
    i: int,
) -> bool {
    let s = doc.slots[i];
    let id = (i + 1) as u64;
    match ix.places[i] {
        Placement::Staged(n) => n == slot_node(doc, atlas, i) && !store_contains_id(nodes, id),
        Placement::Inserted(sid) => sid == id && store_has_node(
            nodes,
            slot_node(doc, atlas, i),
            Some(index_id(ix, NameV::Bone(s.parent))),
        ),
    }
}

/// Bone `j`'s entry is faithful: staged with its created node and not yet
/// in the store, or inserted under its declared parent. A bone named like
/// the root has no entry of its own.
pub open spec fn bone_entry_ok(
    doc: CharacterV,
    ix: IdentityIndexV,
    nodes: Seq<StoreNode>,
    j: int,
) -> bool {
    let b = doc.bones[j];
    if bone_skipped(b) {
        true
    } else {
        let pos = bone_pos(doc, j);
        let id = (pos + 1) as u64;
        match ix.places[pos] {
            Placement::Staged(n) => n == bone_node(doc, j) && !store_contains_id(nodes, id),
            Placement::Inserted(bid) => bid == id && b.parent is Some && store_has_node(
                nodes,
                bone_node(doc, j),
                Some(index_id(ix, NameV::Bone(b.parent->Some_0))),
            ),
        }
    }
}

/// The standing state of index and store throughout resolution.
#[verifier::opaque]
pub open spec fn resolution_inv(
    doc: CharacterV,
    atlas: AtlasV,
    ix: IdentityIndexV,
    nodes: Seq<StoreNode>,
) -> bool {
    let last = ix.names.len() - 1;
    &&& ix.names == index_names_of(doc)
    &&& ix.places.len() == ix.names.len()
    &&& index_wf(ix)
    &&& ix.places[last] == Placement::Inserted(0u64)
    &&& forall|p: int| 0 <= p < last ==> place_id(#[trigger] ix.places[p]) == p + 1
    &&& nodes.len() >= 1
    &&& nodes[0] == (StoreNode { node: root_node(), parent: None })
    &&& store_wf(nodes)
    &&& store_rooted(nodes)
    &&& nodes.len() == 1 + inserted_count(ix.places, last)
    &&& forall|k: int|
        1 <= k < nodes.len() ==> 1 <= (#[trigger] nodes[k]).node.id <= last && ix.places[
            nodes[k].node.id - 1
        ] is Inserted
    &&& forall|i: int| 0 <= i < doc.slots.len() ==> slot_entry_ok(doc, atlas, ix, nodes, i)
    &&& forall|j: int| 0 <= j < doc.bones.len() ==> bone_entry_ok(doc, ix, nodes, j)
}

/// A finished assembly: the invariant, with every slot and every staged,
/// parented bone moved into the store.
pub open spec fn assembled(
    doc: CharacterV,
    atlas: AtlasV,
    ix: IdentityIndexV,
    nodes: Seq<StoreNode>,
) -> bool {
    &&& resolution_inv(doc, atlas, ix, nodes)
    &&& forall|i: int| 0 <= i < doc.slots.len() ==> (#[trigger] ix.places[i]) is Inserted
    &&& forall|j: int|
        0 <= j < doc.bones.len() && !bone_skipped(#[trigger] doc.bones[j]) && doc.bones[
            j
        ].parent is Some ==> ix.places[bone_pos(doc, j)] is Inserted
}

/// The assembled scene: the store, the identity index resolving every
/// record, and the synthesized root's identifier.
#[derive(Debug)]
pub struct Assembly {
    pub store: NodeStore,
    pub index: IdentityIndex,
    pub root_id: u64,
}

// ---------------------------------------------------------------------
// Positional facts about the staged bone identities.
// ---------------------------------------------------------------------

/// One step of the staged-bone identity list.
proof fn lemma_nonroot_names_step(bones: Seq<BoneV>, j: int)
    requires
        0 <= j < bones.len(),
    ensures
        nonroot_bone_names(bones.take(j + 1)) == if bone_skipped(bones[j]) {
            nonroot_bone_names(bones.take(j))
        } else {
            nonroot_bone_names(bones.take(j)).push(NameV::Bone(bones[j].name))
        },
{
    let t = bones.take(j + 1);
    assert(t.drop_last() =~= bones.take(j));
    assert(t.last() == bones[j]);
}

/// Every staged bone identity comes from a staged bone, at its rank.
proof fn lemma_nonroot_names_elem(bones: Seq<BoneV>, j: int, k: int)
    requires
        0 <= j <= bones.len(),
        0 <= k < nonroot_bone_names(bones.take(j)).len(),
    ensures
        exists|j2: int|
            0 <= j2 < j && !bone_skipped(#[trigger] bones[j2]) && nonroot_bone_names(
                bones.take(j),
            )[k] == NameV::Bone(bones[j2].name) && nonroot_rank(bones, j2) == k,
    decreases j,
{
    if j > 0 {
        lemma_nonroot_names_step(bones, j - 1);
        if bone_skipped(bones[j - 1]) {
            lemma_nonroot_names_elem(bones, j - 1, k);
        } else {
            if k < nonroot_bone_names(bones.take(j - 1)).len() {
                lemma_nonroot_names_elem(bones, j - 1, k);
            } else {
                assert(nonroot_bone_names(bones.take(j))[k] == NameV::Bone(bones[j - 1].name));
                assert(nonroot_rank(bones, j - 1) == k);
            }
        }
    }
}

/// A staged bone's identity stands at its rank in the list.
proof fn lemma_nonroot_name_at(bones: Seq<BoneV>, j: int, j2: int)
    requires
        0 <= j2 < j <= bones.len(),
        !bone_skipped(bones[j2]),
    ensures
        0 <= nonroot_rank(bones, j2) < nonroot_bone_names(bones.take(j)).len(),
        nonroot_bone_names(bones.take(j))[nonroot_rank(bones, j2)] == NameV::Bone(bones[j2].name),
    decreases j,
{
    lemma_nonroot_names_step(bones, j - 1);
    if j2 == j - 1 {
        assert(nonroot_rank(bones, j2) == nonroot_bone_names(bones.take(j - 1)).len());
    } else {
        lemma_nonroot_name_at(bones, j - 1, j2);
    }
}

/// No staged bone answers to the root's name.
proof fn lemma_nonroot_names_no_root(bones: Seq<BoneV>, j: int)
    requires
        0 <= j <= bones.len(),
    ensures
        forall|k: int|
            0 <= k < nonroot_bone_names(bones.take(j)).len() ==> (#[trigger] nonroot_bone_names(
                bones.take(j),
            )[k]) != NameV::Bone(root_name()),
    decreases j,
{
    if j > 0 {
        lemma_nonroot_names_no_root(bones, j - 1);
        lemma_nonroot_names_step(bones, j - 1);
    }
}

// ---------------------------------------------------------------------
// Facts about reachability, counting and the index, used by resolution.
// ---------------------------------------------------------------------

/// Reachability is monotone in the fuel.
proof fn lemma_reaches_mono(bones: Seq<BoneV>, p: Seq<char>, f1: nat, f2: nat)
    requires
        f1 <= f2,
        reaches_root(bones, p, f1),
    ensures
        reaches_root(bones, p, f2),
    decreases f1,
{
    if p != root_name() {
        match bones[bone_at(bones, p)].parent {
            None => {},
            Some(pp) => {
                lemma_reaches_mono(bones, pp, (f1 - 1) as nat, (f2 - 1) as nat);
            },
        }
    }
}

proof fn lemma_inserted_count_bounds(places: Seq<Placement>, upto: int)
    requires
        0 <= upto <= places.len(),
    ensures
        0 <= inserted_count(places, upto) <= upto,
    decreases upto,
{
    if upto > 0 {
        lemma_inserted_count_bounds(places, upto - 1);
    }
}

/// Turning one staged entry into an inserted one raises the count by one
/// and touches nothing else.
proof fn lemma_inserted_count_update(places: Seq<Placement>, i: int, v: Placement, upto: int)
    requires
        0 <= i < upto <= places.len(),
        !(places[i] is Inserted),
        v is Inserted,
    ensures
        inserted_count(places.update(i, v), upto) == inserted_count(places, upto) + 1,
    decreases upto,
{
    let p2 = places.update(i, v);
    if i == upto - 1 {
        assert(forall|k: int| 0 <= k < upto - 1 ==> p2[k] == places[k]);
        lemma_inserted_count_same(places, p2, upto - 1);
    } else {
        lemma_inserted_count_update(places, i, v, upto - 1);
    }
}

/// The count only reads the entries below `upto`.
proof fn lemma_inserted_count_same(p1: Seq<Placement>, p2: Seq<Placement>, upto: int)
    requires
        0 <= upto <= p1.len(),
        upto <= p2.len(),
        forall|k: int| 0 <= k < upto ==> p1[k] == (#[trigger] p2[k]),
    ensures
        inserted_count(p1, upto) == inserted_count(p2, upto),
    decreases upto,
{
    if upto > 0 {
        lemma_inserted_count_same(p1, p2, upto - 1);
    }
}

/// The staged bone list never outgrows the bone list.
proof fn lemma_nonroot_len(bones: Seq<BoneV>, j: int)
    requires
        0 <= j <= bones.len(),
    ensures
        nonroot_bone_names(bones.take(j)).len() <= j,
    decreases j,
{
    if j > 0 {
        lemma_nonroot_len(bones, j - 1);
        lemma_nonroot_names_step(bones, j - 1);
    }
}

/// Ranks grow along the bone list, strictly past a staged bone.
proof fn lemma_rank_mono(bones: Seq<BoneV>, a: int, b: int)
    requires
        0 <= a <= b <= bones.len(),
    ensures
        nonroot_rank(bones, a) <= nonroot_rank(bones, b),
        a < b && !bone_skipped(bones[a]) ==> nonroot_rank(bones, a) < nonroot_rank(bones, b),
    decreases b - a,
{
    if a < b {
        lemma_nonroot_names_step(bones, b - 1);
        lemma_rank_mono(bones, a, b - 1);
    }
}

/// Under a well-formed index, two staged bones never share a name: the bone
/// a parent name picks out is unique.
proof fn lemma_bone_at_is(doc: CharacterV, ix: IdentityIndexV, j: int)
    requires
        ix.names == index_names_of(doc),
        index_wf(ix),
        0 <= j < doc.bones.len(),
        !bone_skipped(doc.bones[j]),
    ensures
        has_bone(doc.bones, doc.bones[j].name),
        bone_at(doc.bones, doc.bones[j].name) == j,
{
    let p = doc.bones[j].name;
    assert(has_bone(doc.bones, p));
    let j2 = bone_at(doc.bones, p);
    assert(0 <= j2 < doc.bones.len() && doc.bones[j2].name == p);
    assert(!bone_skipped(doc.bones[j2]));
    if j2 != j {
        assert(doc.bones.take(doc.bones.len() as int) =~= doc.bones);
        lemma_nonroot_name_at(doc.bones, doc.bones.len() as int, j);
        lemma_nonroot_name_at(doc.bones, doc.bones.len() as int, j2);
        if j < j2 {
            lemma_rank_mono(doc.bones, j, j2);
        } else {
            lemma_rank_mono(doc.bones, j2, j);
        }
        let s = doc.slots.len() as int;
        assert(ix.names[s + nonroot_rank(doc.bones, j)] == NameV::Bone(p));
        assert(ix.names[s + nonroot_rank(doc.bones, j2)] == NameV::Bone(p));
        assert(false);
    }
}

/// What each index position holds: a slot identity, a staged bone identity,
/// or the root.
proof fn lemma_index_entry_shape(doc: CharacterV, ix: IdentityIndexV, q: int)
    requires
        ix.names == index_names_of(doc),
        0 <= q < ix.names.len(),
    ensures
        q < doc.slots.len() ==> ix.names[q] == NameV::Slot(doc.slots[q].name),
        doc.slots.len() <= q < ix.names.len() - 1 ==> exists|j2: int|
            0 <= j2 < doc.bones.len() && !bone_skipped(#[trigger] doc.bones[j2]) && ix.names[q]
                == NameV::Bone(doc.bones[j2].name) && bone_pos(doc, j2) == q,
        q == ix.names.len() - 1 ==> ix.names[q] == NameV::Bone(root_name()),
{
    let s = doc.slots.len() as int;
    let nb = nonroot_bone_names(doc.bones);
    assert(ix.names.len() == s + nb.len() + 1);
    if q < s {
        assert(ix.names[q] == slot_names_of(doc.slots)[q]);
    } else if q < s + nb.len() {
        assert(ix.names[q] == nb[q - s]);
        assert(doc.bones.take(doc.bones.len() as int) =~= doc.bones);
        lemma_nonroot_names_elem(doc.bones, doc.bones.len() as int, q - s);
    } else {
        assert(ix.names[q] == seq![NameV::Bone(root_name())][0]);
    }
}

/// A known parent name has an index entry.
proof fn lemma_parent_entry_exists(doc: CharacterV, ix: IdentityIndexV, p: Seq<char>)
    requires
        ix.names == index_names_of(doc),
        parent_known(doc.bones, p),
    ensures
        index_has(ix, NameV::Bone(p)),
{
    let s = doc.slots.len() as int;
    if p == root_name() {
        assert(ix.names[ix.names.len() - 1] == seq![NameV::Bone(root_name())][0]);
        assert(index_has(ix, NameV::Bone(p)));
    } else {
        let j = choose|j: int|
            0 <= j < doc.bones.len() && (#[trigger] doc.bones[j].name) == p;
        assert(!bone_skipped(doc.bones[j]));
        lemma_nonroot_name_at(doc.bones, doc.bones.len() as int, j);
        assert(doc.bones.take(doc.bones.len() as int) =~= doc.bones);
        assert(ix.names[s + nonroot_rank(doc.bones, j)] == NameV::Bone(p));
        assert(index_has(ix, NameV::Bone(p)));
    }
}

/// Equal names pick equal positions, whatever the placements.
proof fn lemma_index_pos_stable(ix1: IdentityIndexV, ix2: IdentityIndexV, nm: NameV)
    requires
        ix1.names == ix2.names,
        index_wf(ix1),
        index_has(ix1, nm),
    ensures
        index_pos(ix1, nm) == index_pos(ix2, nm),
        0 <= index_pos(ix1, nm) < ix1.names.len(),
        ix1.names[index_pos(ix1, nm)] == nm,
{
    let p1 = index_pos(ix1, nm);
    let p2 = index_pos(ix2, nm);
    assert(0 <= p1 < ix1.names.len() && ix1.names[p1] == nm);
    assert(0 <= p2 < ix2.names.len() && ix2.names[p2] == nm);
    if p1 != p2 {
        assert(ix1.names[p1] != ix1.names[p2]);
    }
}

/// If no slot dangles from `k` on, every slot's parent from `k` on is
/// known.
proof fn lemma_slot_dangling_none(doc: CharacterV, k: int, i: int)
    requires
        0 <= k <= i < doc.slots.len(),
        slot_dangling_from(doc, k) is None,
    ensures
        parent_known(doc.bones, doc.slots[i].parent),
    decreases i - k,
{
    if k < i {
        lemma_slot_dangling_none(doc, k + 1, i);
    }
}

proof fn lemma_bone_dangling_none(doc: CharacterV, k: int, j: int)
    requires
        0 <= k <= j < doc.bones.len(),
        bone_dangling_from(doc, k) is None,
        !bone_skipped(doc.bones[j]),
        doc.bones[j].parent is Some,
    ensures
        parent_known(doc.bones, doc.bones[j].parent->Some_0),
    decreases j - k,
{
    if k < j {
        lemma_bone_dangling_none(doc, k + 1, j);
    }
}

// ---------------------------------------------------------------------
// What one attachment does to the invariant.
// ---------------------------------------------------------------------

/// The new index after attaching the record at position `pos`.
pub open spec fn attach_ix(ix: IdentityIndexV, pos: int) -> IdentityIndexV {
    IdentityIndexV {
        names: ix.names,
        places: ix.places.update(pos, Placement::Inserted((pos + 1) as u64)),
    }
}

/// The store node appended when the record at `pos` with node `n` attaches
/// under the entry at `q`.
pub open spec fn attach_node(ix: IdentityIndexV, n: Node, q: int) -> StoreNode {
    StoreNode { node: n, parent: Some(place_id(ix.places[q])) }
}

/// Everything record-independent that one attachment preserves: identifiers,
/// the root, well-formedness, the count, and every other entry.
proof fn lemma_attach_common(
    doc: CharacterV,
    atlas: AtlasV,
    ix: IdentityIndexV,
    nodes: Seq<StoreNode>,
    pos: int,
    q: int,
)
    requires
        resolution_inv(doc, atlas, ix, nodes),
        0 <= pos < ix.names.len() - 1,
        ix.places[pos] is Staged,
        0 <= q < ix.names.len(),
        ix.places[q] is Inserted,
    ensures
        place_id(ix.places[q]) == index_id(ix, ix.names[q]) || !index_has(ix, ix.names[q]),
        store_contains_id(nodes, place_id(ix.places[q])),
        !store_contains_id(nodes, (pos + 1) as u64),
        ({
            let n = ix.places[pos]->Staged_0;
            let ix2 = attach_ix(ix, pos);
            let nodes2 = nodes.push(attach_node(ix, n, q));
            &&& ix2.places.len() == ix2.names.len()
            &&& index_wf(ix2)
            &&& ix2.places[ix2.names.len() - 1] == Placement::Inserted(0u64)
            &&& forall|p: int|
                0 <= p < ix2.names.len() - 1 ==> place_id(#[trigger] ix2.places[p]) == p + 1
            &&& nodes2.len() >= 1
            &&& nodes2[0] == (StoreNode { node: root_node(), parent: None })
            &&& store_wf(nodes2)
            &&& store_rooted(nodes2)
            &&& nodes2.len() == 1 + inserted_count(ix2.places, ix2.names.len() - 1)
            &&& forall|k: int|
                1 <= k < nodes2.len() ==> 1 <= (#[trigger] nodes2[k]).node.id < ix2.names.len()
                    && ix2.places[nodes2[k].node.id - 1] is Inserted
            &&& forall|nm: NameV|
                index_has(ix, nm) ==> #[trigger] index_id(ix2, nm) == index_id(ix, nm)
        }),
{
    reveal(resolution_inv);
    let last = ix.names.len() - 1;
    let n = ix.places[pos]->Staged_0;
    let ix2 = attach_ix(ix, pos);
    let sn = attach_node(ix, n, q);
    let nodes2 = nodes.push(sn);
    let pid = place_id(ix.places[q]);

    // The parent is in the store.
    if q == last {
        assert(ix.places[q] == Placement::Inserted(0u64));
        assert(nodes[0].node.id == 0);
        assert(store_contains_id(nodes, 0u64));
    } else {
        assert(place_id(ix.places[q]) == q + 1);
        lemma_index_entry_shape(doc, ix, q);
        if q < doc.slots.len() {
            assert(slot_entry_ok(doc, atlas, ix, nodes, q));
            assert(store_has_node(
                nodes,
                slot_node(doc, atlas, q),
                Some(index_id(ix, NameV::Bone(doc.slots[q].parent))),
            ));
            let k = choose|k: int|
                0 <= k < nodes.len() && (#[trigger] nodes[k]) == StoreNode {
                    node: slot_node(doc, atlas, q),
                    parent: Some(index_id(ix, NameV::Bone(doc.slots[q].parent))),
                };
            assert(nodes[k].node.id == q + 1);
            assert(store_contains_id(nodes, (q + 1) as u64));
        } else {
            let j2 = choose|j2: int|
                0 <= j2 < doc.bones.len() && !bone_skipped(#[trigger] doc.bones[j2]) && ix.names[q]
                    == NameV::Bone(doc.bones[j2].name) && bone_pos(doc, j2) == q;
            assert(bone_entry_ok(doc, ix, nodes, j2));
            let k = choose|k: int|
                0 <= k < nodes.len() && (#[trigger] nodes[k]) == StoreNode {
                    node: bone_node(doc, j2),
                    parent: Some(
                        index_id(ix, NameV::Bone(doc.bones[j2].parent->Some_0)),
                    ),
                };
            assert(nodes[k].node.id == q + 1);
            assert(store_contains_id(nodes, (q + 1) as u64));
        }
    }

    // The child is not.
    assert(place_id(ix.places[pos]) == pos + 1);
    assert(n.id == pos + 1);
    if store_contains_id(nodes, (pos + 1) as u64) {
        let k = choose|k: int|
            0 <= k < nodes.len() && (#[trigger] nodes[k].node.id) == (pos + 1) as u64;
        assert(k >= 1);
        assert(ix.places[pos] is Inserted);
    }

    // The parent identifier is what the index answers for the parent name.
    if index_has(ix, ix.names[q]) {
        let qq = index_pos(ix, ix.names[q]);
        assert(0 <= qq < ix.names.len() && ix.names[qq] == ix.names[q]);
        if qq != q {
            assert(ix.names[qq] != ix.names[q]);
        }
        if q == last {
            assert(index_id(ix, ix.names[q]) == 0);
        }
    }

    // Identifier map and well-formedness carry over.
    assert(ix2.places[last] == ix.places[last]);
    assert forall|p: int| 0 <= p < last implies place_id(#[trigger] ix2.places[p]) == p + 1 by {
        if p == pos {
        } else {
            assert(ix2.places[p] == ix.places[p]);
        }
    }

    // Store shape.
    lemma_store_push_wf(nodes, sn);
    assert(store_rooted(nodes2)) by {
        assert(forall|k: int| 0 <= k < nodes.len() ==> nodes2[k] == nodes[k]);
        assert(nodes2[nodes.len() as int].parent is Some);
    }
    assert(nodes2[0] == nodes[0]);

    // Count.
    lemma_inserted_count_update(ix.places, pos, Placement::Inserted((pos + 1) as u64), last);

    // Inserted identifiers stay inserted.
    assert forall|k: int|
        1 <= k < nodes2.len() implies 1 <= (#[trigger] nodes2[k]).node.id < ix2.names.len()
            && ix2.places[nodes2[k].node.id - 1] is Inserted by {
        if k < nodes.len() {
            assert(nodes2[k] == nodes[k]);
            if nodes[k].node.id - 1 == pos {
            } else {
                assert(ix2.places[nodes2[k].node.id - 1] == ix.places[nodes[k].node.id - 1]);
            }
        } else {
            assert(nodes2[k] == sn);
            assert(sn.node.id == pos + 1);
            assert(ix2.places[pos] is Inserted);
        }
    }

    // Names did not move, identifiers did not change: the index answers as
    // before.
    assert forall|nm: NameV| index_has(ix, nm) implies #[trigger] index_id(ix2, nm) == index_id(
        ix,
        nm,
    ) by {
        lemma_index_pos_stable(ix, ix2, nm);
        let pp = index_pos(ix, nm);
        if pp == last {
        } else if pp == pos {
        } else {
            assert(ix2.places[pp] == ix.places[pp]);
        }
    }
}

// ---------------------------------------------------------------------
// Resolution.
// ---------------------------------------------------------------------

/// Position `pos` carries a record whose parent name is `parent`: a slot's
/// position is its own index, a staged bone's is its staged rank after the
/// slots.
pub open spec fn record_parent_at(doc: CharacterV, pos: int, rec: int, parent: Seq<char>) -> bool {
    if pos < doc.slots.len() {
        rec == pos && doc.slots[pos].parent == parent
    } else {
        &&& 0 <= rec < doc.bones.len()
        &&& !bone_skipped(doc.bones[rec])
        &&& bone_pos(doc, rec) == pos
        &&& doc.bones[rec].parent == Some(parent)
    }
}

/// Soundness of the inserted entries: every inserted record's parent chain
/// reaches the root within as many steps as there are inserted records.
#[verifier::opaque]
pub open spec fn inserted_sound(doc: CharacterV, ix: IdentityIndexV) -> bool {
    let cnt = inserted_count(ix.places, ix.names.len() - 1);
    &&& forall|i: int|
        0 <= i < doc.slots.len() && (#[trigger] ix.places[i]) is Inserted ==> reaches_root(
            doc.bones,
            doc.slots[i].parent,
            cnt as nat,
        )
    &&& forall|j: int|
        0 <= j < doc.bones.len() && !bone_skipped(#[trigger] doc.bones[j]) && ix.places[bone_pos(
            doc,
            j,
        )] is Inserted ==> doc.bones[j].parent is Some && reaches_root(
            doc.bones,
            doc.bones[j].parent->Some_0,
            cnt as nat,
        )
}

/// Completeness after a sweep: every record whose parent chain fits in the
/// fuel has been moved into the store.
#[verifier::opaque]
pub open spec fn swept(doc: CharacterV, ix: IdentityIndexV, fuel: int) -> bool {
    fuel >= 0 ==> {
        &&& forall|i: int|
            0 <= i < doc.slots.len() && reaches_root(
                doc.bones,
                (#[trigger] doc.slots[i]).parent,
                fuel as nat,
            ) ==> ix.places[i] is Inserted
        &&& forall|j: int|
            0 <= j < doc.bones.len() && !bone_skipped(#[trigger] doc.bones[j]) && doc.bones[
                j
            ].parent is Some && reaches_root(
                doc.bones,
                doc.bones[j].parent->Some_0,
                fuel as nat,
            ) ==> ix.places[bone_pos(doc, j)] is Inserted
    }
}

/// Two staged bones never share an index position.
proof fn lemma_bone_pos_injective(doc: CharacterV, j1: int, j2: int)
    requires
        0 <= j1 < doc.bones.len(),
        0 <= j2 < doc.bones.len(),
        !bone_skipped(doc.bones[j1]),
        !bone_skipped(doc.bones[j2]),
        j1 != j2,
    ensures
        bone_pos(doc, j1) != bone_pos(doc, j2),
{
    if j1 < j2 {
        lemma_rank_mono(doc.bones, j1, j2);
    } else {
        lemma_rank_mono(doc.bones, j2, j1);
    }
}

/// After one attachment every slot entry still stands.
#[verifier::rlimit(60)]
proof fn lemma_attach_slots_ok(
    doc: CharacterV,
    atlas: AtlasV,
    ix0: IdentityIndexV,
    nodes0: Seq<StoreNode>,
    pos: int,
    q: int,
    rec: int,
    parent: Seq<char>,
)
    requires
        resolution_inv(doc, atlas, ix0, nodes0),
        dangling_err(doc) is None,
        0 <= pos < ix0.names.len() - 1,
        ix0.places[pos] is Staged,
        record_parent_at(doc, pos, rec, parent),
        0 <= q < ix0.names.len(),
        ix0.names[q] == NameV::Bone(parent),
        ix0.places[q] is Inserted,
        index_pos(ix0, NameV::Bone(parent)) == q,
    ensures
        forall|i2: int|
            0 <= i2 < doc.slots.len() ==> slot_entry_ok(
                doc,
                atlas,
                attach_ix(ix0, pos),
                nodes0.push(attach_node(ix0, ix0.places[pos]->Staged_0, q)),
                i2,
            ),
{
    reveal(resolution_inv);
    let node = ix0.places[pos]->Staged_0;
    let ix2 = attach_ix(ix0, pos);
    let nodes2 = nodes0.push(attach_node(ix0, node, q));
    lemma_attach_common(doc, atlas, ix0, nodes0, pos, q);
    assert forall|i2: int| 0 <= i2 < doc.slots.len() implies slot_entry_ok(
        doc,
        atlas,
        ix2,
        nodes2,
        i2,
    ) by {
        assert(slot_entry_ok(doc, atlas, ix0, nodes0, i2));
        lemma_slot_dangling_none(doc, 0, i2);
        lemma_parent_entry_exists(doc, ix0, doc.slots[i2].parent);
        assert(index_id(ix2, NameV::Bone(doc.slots[i2].parent)) == index_id(
            ix0,
            NameV::Bone(doc.slots[i2].parent),
        ));
        if i2 == pos {
            assert(node == slot_node(doc, atlas, i2));
            assert(index_id(ix0, NameV::Bone(parent)) == place_id(ix0.places[q]));
            assert(nodes2[nodes0.len() as int] == StoreNode {
                node: slot_node(doc, atlas, i2),
                parent: Some(index_id(ix2, NameV::Bone(doc.slots[i2].parent))),
            });
            assert(store_has_node(
                nodes2,
                slot_node(doc, atlas, i2),
                Some(index_id(ix2, NameV::Bone(doc.slots[i2].parent))),
            ));
        } else {
            match ix0.places[i2] {
                Placement::Staged(n2) => {
                    assert(!store_contains_id(nodes2, (i2 + 1) as u64)) by {
                        if store_contains_id(nodes2, (i2 + 1) as u64) {
                            let k = choose|k: int|
                                0 <= k < nodes2.len() && (#[trigger] nodes2[k].node.id) == (i2
                                    + 1) as u64;
                            if k < nodes0.len() {
                                assert(store_contains_id(nodes0, (i2 + 1) as u64));
                            } else {
                                assert(nodes2[k].node.id == pos + 1);
                            }
                        }
                    }
                },
                Placement::Inserted(sid) => {
                    let want = StoreNode {
                        node: slot_node(doc, atlas, i2),
                        parent: Some(index_id(ix0, NameV::Bone(doc.slots[i2].parent))),
                    };
                    let k = choose|k: int| 0 <= k < nodes0.len() && (#[trigger] nodes0[k]) == want;
                    assert(nodes2[k] == want);
                },
            }
        }
    }
}

/// After one attachment every bone entry still stands.
#[verifier::rlimit(60)]
proof fn lemma_attach_bones_ok(
    doc: CharacterV,
    atlas: AtlasV,
    ix0: IdentityIndexV,
    nodes0: Seq<StoreNode>,
    pos: int,
    q: int,
    rec: int,
    parent: Seq<char>,
)
    requires
        resolution_inv(doc, atlas, ix0, nodes0),
        dangling_err(doc) is None,
        0 <= pos < ix0.names.len() - 1,
        ix0.places[pos] is Staged,
        record_parent_at(doc, pos, rec, parent),
        0 <= q < ix0.names.len(),
        ix0.names[q] == NameV::Bone(parent),
        ix0.places[q] is Inserted,
        index_pos(ix0, NameV::Bone(parent)) == q,
    ensures
        forall|j2: int|
            0 <= j2 < doc.bones.len() ==> bone_entry_ok(
                doc,
                attach_ix(ix0, pos),
                nodes0.push(attach_node(ix0, ix0.places[pos]->Staged_0, q)),
                j2,
            ),
{
    reveal(resolution_inv);
    let node = ix0.places[pos]->Staged_0;
    let ix2 = attach_ix(ix0, pos);
    let nodes2 = nodes0.push(attach_node(ix0, node, q));
    lemma_attach_common(doc, atlas, ix0, nodes0, pos, q);
    assert forall|j2: int| 0 <= j2 < doc.bones.len() implies bone_entry_ok(
        doc,
        ix2,
        nodes2,
        j2,
    ) by {
        assert(bone_entry_ok(doc, ix0, nodes0, j2));
        if !bone_skipped(doc.bones[j2]) {
            let bp = bone_pos(doc, j2);
            assert(doc.bones.take(doc.bones.len() as int) =~= doc.bones);
            lemma_nonroot_name_at(doc.bones, doc.bones.len() as int, j2);
            assert(doc.slots.len() <= bp < ix0.names.len() - 1);
            if doc.bones[j2].parent is Some {
                lemma_bone_dangling_none(doc, 0, j2);
                lemma_parent_entry_exists(doc, ix0, doc.bones[j2].parent->Some_0);
                assert(index_id(ix2, NameV::Bone(doc.bones[j2].parent->Some_0)) == index_id(
                    ix0,
                    NameV::Bone(doc.bones[j2].parent->Some_0),
                ));
            }
            if bp == pos {
                match ix0.places[bp] {
                    Placement::Staged(n2) => {
                        assert(doc.bones[j2].parent is Some) by {
                            if pos < doc.slots.len() {
                                assert(false);
                            } else {
                                if rec != j2 {
                                    lemma_bone_pos_injective(doc, rec, j2);
                                    assert(false);
                                }
                            }
                        }
                        assert(node == bone_node(doc, j2));
                        assert(doc.bones[j2].parent->Some_0 == parent) by {
                            if rec != j2 {
                                lemma_bone_pos_injective(doc, rec, j2);
                            }
                        }
                        assert(index_id(ix0, NameV::Bone(parent)) == place_id(ix0.places[q]));
                        assert(nodes2[nodes0.len() as int] == StoreNode {
                            node: bone_node(doc, j2),
                            parent: Some(
                                index_id(ix2, NameV::Bone(doc.bones[j2].parent->Some_0)),
                            ),
                        });
                        assert(store_has_node(
                            nodes2,
                            bone_node(doc, j2),
                            Some(index_id(ix2, NameV::Bone(doc.bones[j2].parent->Some_0))),
                        ));
                    },
                    Placement::Inserted(_) => {
                        assert(false);
                    },
                }
            } else {
                match ix0.places[bp] {
                    Placement::Staged(n2) => {
                        assert(!store_contains_id(nodes2, (bp + 1) as u64)) by {
                            if store_contains_id(nodes2, (bp + 1) as u64) {
                                let k = choose|k: int|
                                    0 <= k < nodes2.len() && (#[trigger] nodes2[k].node.id) == (bp
                                        + 1) as u64;
                                if k < nodes0.len() {
                                    assert(store_contains_id(nodes0, (bp + 1) as u64));
                                } else {
                                    assert(nodes2[k].node.id == pos + 1);
                                }
                            }
                        }
                    },
                    Placement::Inserted(bid) => {
                        let want = StoreNode {
                            node: bone_node(doc, j2),
                            parent: Some(
                                index_id(ix0, NameV::Bone(doc.bones[j2].parent->Some_0)),
                            ),
                        };
                        let k = choose|k: int|
                            0 <= k < nodes0.len() && (#[trigger] nodes0[k]) == want;
                        assert(nodes2[k] == want);
                    },
                }
            }
        }
    }
}

/// After one attachment the inserted entries are still sound: the new
/// record's chain runs through its (already sound) parent.
#[verifier::rlimit(60)]
proof fn lemma_attach_sound(
    doc: CharacterV,
    atlas: AtlasV,
    ix0: IdentityIndexV,
    nodes0: Seq<StoreNode>,
    pos: int,
    q: int,
    rec: int,
    parent: Seq<char>,
)
    requires
        resolution_inv(doc, atlas, ix0, nodes0),
        inserted_sound(doc, ix0),
        0 <= pos < ix0.names.len() - 1,
        ix0.places[pos] is Staged,
        record_parent_at(doc, pos, rec, parent),
        0 <= q < ix0.names.len(),
        ix0.names[q] == NameV::Bone(parent),
        ix0.places[q] is Inserted,
    ensures
        inserted_sound(doc, attach_ix(ix0, pos)),
{
    reveal(resolution_inv);
    reveal(inserted_sound);
    let ix2 = attach_ix(ix0, pos);
    let lastp = ix0.names.len() - 1;
    let cnt = inserted_count(ix0.places, lastp);
    lemma_inserted_count_bounds(ix0.places, lastp);
    lemma_inserted_count_update(ix0.places, pos, Placement::Inserted((pos + 1) as u64), lastp);
    let cnt2 = inserted_count(ix2.places, lastp);
    assert(cnt2 == cnt + 1);

    assert(reaches_root(doc.bones, parent, cnt2 as nat)) by {
        if q == lastp {
            assert(ix0.names[lastp] == seq![NameV::Bone(root_name())][0]);
            assert(parent == root_name());
        } else {
            lemma_index_entry_shape(doc, ix0, q);
            assert(q >= doc.slots.len()) by {
                if q < doc.slots.len() {
                    assert(ix0.names[q] == NameV::Slot(doc.slots[q].name));
                }
            }
            let j2 = choose|j2: int|
                0 <= j2 < doc.bones.len() && !bone_skipped(#[trigger] doc.bones[j2]) && ix0.names[
                    q
                ] == NameV::Bone(doc.bones[j2].name) && bone_pos(doc, j2) == q;
            assert(doc.bones[j2].name == parent);
            assert(ix0.places[bone_pos(doc, j2)] is Inserted);
            assert(doc.bones[j2].parent is Some && reaches_root(
                doc.bones,
                doc.bones[j2].parent->Some_0,
                cnt as nat,
            ));
            assert(parent != root_name()) by {
                if parent == root_name() {
                    assert(ix0.names[lastp] == seq![NameV::Bone(root_name())][0]);
                    assert(ix0.names[q] == ix0.names[lastp]);
                }
            }
            lemma_bone_at_is(doc, ix0, j2);
        }
    }
    assert forall|i2: int|
        0 <= i2 < doc.slots.len() && (#[trigger] ix2.places[i2]) is Inserted implies reaches_root(
        doc.bones,
        doc.slots[i2].parent,
        cnt2 as nat,
    ) by {
        if i2 == pos {
            assert(doc.slots[i2].parent == parent);
        } else {
            assert(ix0.places[i2] is Inserted);
            lemma_reaches_mono(doc.bones, doc.slots[i2].parent, cnt as nat, cnt2 as nat);
        }
    }
    assert forall|j2: int|
        0 <= j2 < doc.bones.len() && !bone_skipped(#[trigger] doc.bones[j2]) && ix2.places[
        bone_pos(doc, j2)
    ] is Inserted implies doc.bones[j2].parent is Some && reaches_root(
        doc.bones,
        doc.bones[j2].parent->Some_0,
        cnt2 as nat,
    ) by {
        let bp = bone_pos(doc, j2);
        assert(doc.bones.take(doc.bones.len() as int) =~= doc.bones);
        lemma_nonroot_name_at(doc.bones, doc.bones.len() as int, j2);
        assert(doc.slots.len() <= bp < ix0.names.len() - 1);
        if bp == pos {
            if pos < doc.slots.len() {
                assert(false);
            } else if rec != j2 {
                lemma_bone_pos_injective(doc, rec, j2);
                assert(false);
            } else {
                assert(doc.bones[j2].parent == Some(parent));
            }
        } else {
            assert(ix0.places[bp] is Inserted);
            lemma_reaches_mono(doc.bones, doc.bones[j2].parent->Some_0, cnt as nat, cnt2 as nat);
        }
    }
}

/// A staged parent means a sweep with this fuel does not owe the record
/// yet: its chain cannot fit.
proof fn lemma_staged_parent_not_reached(
    doc: CharacterV,
    atlas: AtlasV,
    ix0: IdentityIndexV,
    nodes0: Seq<StoreNode>,
    q: int,
    parent: Seq<char>,
    fuel: int,
)
    requires
        resolution_inv(doc, atlas, ix0, nodes0),
        0 <= q < ix0.names.len(),
        ix0.names[q] == NameV::Bone(parent),
        ix0.places[q] is Staged,
        swept(doc, ix0, fuel - 1),
        fuel >= 0,
    ensures
        !reaches_root(doc.bones, parent, fuel as nat),
{
    reveal(resolution_inv);
    reveal(swept);
    assert(q != ix0.names.len() - 1);
    lemma_index_entry_shape(doc, ix0, q);
    assert(q >= doc.slots.len()) by {
        if q < doc.slots.len() {
            assert(ix0.names[q] == NameV::Slot(doc.slots[q].name));
        }
    }
    let j2 = choose|j2: int|
        0 <= j2 < doc.bones.len() && !bone_skipped(#[trigger] doc.bones[j2]) && ix0.names[q]
            == NameV::Bone(doc.bones[j2].name) && bone_pos(doc, j2) == q;
    assert(doc.bones[j2].name == parent);
    if reaches_root(doc.bones, parent, fuel as nat) {
        assert(parent != root_name()) by {
            if parent == root_name() {
                assert(ix0.names[ix0.names.len() - 1] == seq![NameV::Bone(root_name())][0]);
                assert(ix0.names[q] == ix0.names[ix0.names.len() - 1]);
            }
        }
        lemma_bone_at_is(doc, ix0, j2);
        match doc.bones[j2].parent {
            None => {},
            Some(pp) => {
                assert(fuel as nat > 0 && reaches_root(doc.bones, pp, (fuel as nat - 1) as nat));
                assert(ix0.places[bone_pos(doc, j2)] is Inserted);
            },
        }
        assert(false);
    }
}

/// Attach the record at index position `pos` under its parent if the
/// parent is store-resident; otherwise leave it staged. One call keeps the
/// whole resolution state standing and moves the record in exactly when a
/// sweep with this much fuel owes it.
#[verifier::rlimit(60)]
fn try_attach(
    doc: &Character,
    atlas: &Atlas,
    index: &mut IdentityIndex,
    store: &mut NodeStore,
    pos: usize,
    parent: &String,
    Ghost(rec): Ghost<int>,
    Ghost(fuel): Ghost<int>,
)
    requires
        resolution_inv(doc@, atlas@, old(index)@, old(store).nodes@),
        inserted_sound(doc@, old(index)@),
        dangling_err(doc@) is None,
        0 <= pos < old(index)@.names.len() - 1,
        record_parent_at(doc@, pos as int, rec, parent@),
        parent_known(doc@.bones, parent@),
    ensures
        resolution_inv(doc@, atlas@, final(index)@, final(store).nodes@),
        inserted_sound(doc@, final(index)@),
        final(index)@.names == old(index)@.names,
        final(store).running == old(store).running,
        forall|p: int|
            0 <= p < old(index)@.places.len() && p != pos ==> (#[trigger] final(index)@.places[p])
                == old(index)@.places[p],
        old(index)@.places[pos as int] is Inserted ==> final(index)@.places[pos as int] == old(
            index,
        )@.places[pos as int],
        (swept(doc@, old(index)@, fuel - 1) && fuel >= 0 && reaches_root(
            doc@.bones,
            parent@,
            fuel as nat,
        )) ==> final(index)@.places[pos as int] is Inserted,
{
    proof {
        reveal(resolution_inv);
    }
    let ghost ix0 = index@;
    let ghost nodes0 = store.nodes@;
    let pl = index.places[pos];
    let node = match pl {
        Placement::Inserted(_) => {
            return ;
        },
        Placement::Staged(node) => node,
    };
    proof {
        lemma_parent_entry_exists(doc@, ix0, parent@);
    }
    let pident = Name::BoneName(parent.clone());
    let q = match index.find(&pident) {
        Some(q) => q,
        None => {
            proof {
                assert(false);
            }
            return ;
        },
    };
    proof {
        assert(ix0.names[q as int] == NameV::Bone(parent@));
        assert(index_pos(ix0, NameV::Bone(parent@)) == q as int);
    }
    let ppl = index.places[q];
    let pid = match ppl {
        Placement::Inserted(pid) => pid,
        Placement::Staged(_) => {
            proof {
                if swept(doc@, ix0, fuel - 1) && fuel >= 0 {
                    lemma_staged_parent_not_reached(
                        doc@,
                        atlas@,
                        ix0,
                        nodes0,
                        q as int,
                        parent@,
                        fuel,
                    );
                }
            }
            return ;
        },
    };
    proof {
        lemma_attach_common(doc@, atlas@, ix0, nodes0, pos as int, q as int);
        assert(node.id == pos as int + 1);
    }
    store.attach_child(pid, node);
    index.places[pos] = Placement::Inserted(node.id);
    proof {
        let ix2 = attach_ix(ix0, pos as int);
        let nodes2 = nodes0.push(attach_node(ix0, node, q as int));
        assert(index@.places =~= ix2.places);
        assert(index@.names == ix2.names);
        assert(store.nodes@ == nodes2);
        lemma_attach_slots_ok(doc@, atlas@, ix0, nodes0, pos as int, q as int, rec, parent@);
        lemma_attach_bones_ok(doc@, atlas@, ix0, nodes0, pos as int, q as int, rec, parent@);
        lemma_attach_sound(doc@, atlas@, ix0, nodes0, pos as int, q as int, rec, parent@);
        assert(resolution_inv(doc@, atlas@, ix2, nodes2));
        assert(index@ == ix2);
    }
}

// ---------------------------------------------------------------------
// Staging.
// ---------------------------------------------------------------------

/// Stage every slot: resolve its texture rectangle, create its node, and
/// park it in the index under its identity.
fn stage_slots(doc: &Character, atlas: &Atlas, index: &mut IdentityIndex) -> (r: Result<
    (),
    LoadError,
>)
    requires
        old(index)@.names == Seq::<NameV>::empty(),
        old(index)@.places == Seq::<Placement>::empty(),
    ensures
        match r {
            Ok(()) => slot_stage_err_from(doc@.slots, atlas@, 0) is None && final(index)@.names
                == slot_names_of(doc@.slots) && final(index)@.places.len() == doc@.slots.len()
                && index_wf(final(index)@) && forall|i: int|
                0 <= i < doc@.slots.len() ==> (#[trigger] final(index)@.places[i])
                    == Placement::Staged(slot_node(doc@, atlas@, i)),
            Err(e) => slot_stage_err_from(doc@.slots, atlas@, 0) == Some(e@),
        },
{
    let n = doc.slots.len();
    let mut i: usize = 0;
    proof {
        assert(slot_names_of(doc@.slots.take(0)) =~= Seq::<NameV>::empty());
    }
    while i < n
        invariant
            i <= n,
            n == doc.slots@.len(),
            doc@.slots.len() == n,
            index@.names == slot_names_of(doc@.slots.take(i as int)),
            index@.places.len() == i,
            index_wf(index@),
            forall|k: int|
                0 <= k < i ==> (#[trigger] index@.places[k]) == Placement::Staged(
                    slot_node(doc@, atlas@, k),
                ),
            slot_stage_err_from(doc@.slots, atlas@, 0) == slot_stage_err_from(
                doc@.slots,
                atlas@,
                i as int,
            ),
        decreases n - i,
    {
        proof {
            assert(doc@.slots[i as int] == doc.slots@[i as int]@);
        }
        let s = &doc.slots[i];
        let st = match atlas.get_sub_texture(s.texture_name.as_str()) {
            Some(st) => st,
            None => {
                return Err(LoadError::UnknownRegion(s.texture_name.clone()));
            },
        };
        let ident = Name::SlotName(s.name.clone());
        proof {
            // The identities staged so far are exactly the earlier slots'.
            assert(forall|k: int|
                0 <= k < i ==> (#[trigger] index@.names[k]) == NameV::Slot(
                    doc@.slots.take(i as int)[k].name,
                ));
        }
        match index.find(&ident) {
            Some(_) => {
                proof {
                    let k = choose|k: int|
                        0 <= k < index@.names.len() && (#[trigger] index@.names[k]) == ident@;
                    assert(doc@.slots[k].name == doc@.slots[i as int].name);
                    assert(slot_dup(doc@.slots, i as int));
                }
                return Err(LoadError::DuplicateIdentity(ident));
            },
            None => {},
        }
        let node = Node {
            id: (i as u64) + 1,
            kind: NodeKind::Slot(Rect { x: st.x, y: st.y, width: st.width, height: st.height }),
            transform: s.transform,
        };
        proof {
            assert(node == slot_node(doc@, atlas@, i as int));
            assert(!slot_dup(doc@.slots, i as int)) by {
                if slot_dup(doc@.slots, i as int) {
                    let j = choose|j: int|
                        0 <= j < i && (#[trigger] doc@.slots[j].name) == doc@.slots[
                            i as int
                        ].name;
                    assert(index@.names[j] == NameV::Slot(doc@.slots[i as int].name));
                    assert(index_has(index@, ident@));
                }
            }
            assert(slot_names_of(doc@.slots.take(i as int + 1)) =~= slot_names_of(
                doc@.slots.take(i as int),
            ).push(NameV::Slot(doc@.slots[i as int].name)));
        }
        let ghost pre = index@;
        index.push(ident, Placement::Staged(node));
        proof {
            assert(index_wf(index@)) by {
                assert(forall|k: int|
                    0 <= k < pre.names.len() ==> (#[trigger] index@.names[k]) == pre.names[k]);
                assert(index@.names[pre.names.len() as int] == ident@);
                assert(forall|k: int|
                    0 <= k < pre.names.len() ==> (#[trigger] pre.names[k]) != ident@);
            }
        }
        i = i + 1;
    }
    proof {
        assert(doc@.slots.take(n as int) =~= doc@.slots);
    }
    Ok(())
}

/// Stage every bone except those answering to the root's name, which the
/// synthesized root stands for.
#[verifier::rlimit(50)]
fn stage_bones(doc: &Character, index: &mut IdentityIndex) -> (r: Result<(), LoadError>)
    requires
        old(index)@.names == slot_names_of(doc@.slots),
        old(index)@.places.len() == old(index)@.names.len(),
        index_wf(old(index)@),
        doc@.slots.len() + doc@.bones.len() < u64::MAX as int,
    ensures
        match r {
            Ok(()) => {
                &&& bone_stage_err_from(doc@.bones, 0) is None
                &&& final(index)@.names == slot_names_of(doc@.slots) + nonroot_bone_names(
                    doc@.bones,
                )
                &&& final(index)@.places.len() == final(index)@.names.len()
                &&& index_wf(final(index)@)
                &&& forall|k: int|
                    0 <= k < old(index)@.places.len() ==> (#[trigger] final(index)@.places[k])
                        == old(index)@.places[k]
                &&& forall|j: int|
                    0 <= j < doc@.bones.len() && !bone_skipped(#[trigger] doc@.bones[j])
                        ==> final(index)@.places[bone_pos(doc@, j)] == Placement::Staged(
                        bone_node(doc@, j),
                    )
            },
            Err(e) => bone_stage_err_from(doc@.bones, 0) == Some(e@),
        },
{
    let root_key: String = "root".to_owned();
    let nslots = doc.slots.len();
    let n = doc.bones.len();
    let mut j: usize = 0;
    proof {
        assert(nonroot_bone_names(doc@.bones.take(0)) =~= Seq::<NameV>::empty());
        assert(index@.names =~= slot_names_of(doc@.slots) + nonroot_bone_names(
            doc@.bones.take(0),
        ));
    }
    while j < n
        invariant
            j <= n,
            n == doc.bones@.len(),
            doc@.bones.len() == n,
            nslots == doc@.slots.len(),
            root_key@ == root_name(),
            index@.names == slot_names_of(doc@.slots) + nonroot_bone_names(
                doc@.bones.take(j as int),
            ),
            index@.places.len() == index@.names.len(),
            index@.names.len() <= nslots + j,
            doc@.slots.len() + doc@.bones.len() < u64::MAX as int,
            old(index)@.places.len() == doc@.slots.len(),
            index_wf(index@),
            forall|k: int|
                0 <= k < old(index)@.places.len() ==> (#[trigger] index@.places[k]) == old(
                    index,
                )@.places[k],
            forall|j2: int|
                0 <= j2 < j && !bone_skipped(#[trigger] doc@.bones[j2]) ==> index@.places[bone_pos(
                    doc@,
                    j2,
                )] == Placement::Staged(bone_node(doc@, j2)),
            bone_stage_err_from(doc@.bones, 0) == bone_stage_err_from(doc@.bones, j as int),
        decreases n - j,
    {
        proof {
            assert(doc@.bones[j as int] == doc.bones@[j as int]@);
        }
        let b = &doc.bones[j];
        if b.name == root_key {
            proof {
                assert(bone_skipped(doc@.bones[j as int]));
                lemma_nonroot_names_step(doc@.bones, j as int);
            }
            j = j + 1;
            continue ;
        }
        proof {
            assert(!bone_skipped(doc@.bones[j as int]));
        }
        if b.parent.is_none() {
            // Exactly one bone — the root — may lack a parent (the
            // synthesized root stands for it); any other is a malformed
            // record.
            return Err(LoadError::ParseError(b.name.clone()));
        }
        let ident = Name::BoneName(b.name.clone());
        match index.find(&ident) {
            Some(_) => {
                proof {
                    let k = choose|k: int|
                        0 <= k < index@.names.len() && (#[trigger] index@.names[k]) == ident@;
                    // The match cannot be a slot identity; it is an earlier
                    // staged bone with the same name.
                    assert(k >= doc@.slots.len()) by {
                        if k < doc@.slots.len() {
                            assert(index@.names[k] == NameV::Slot(doc@.slots[k].name));
                        }
                    }
                    lemma_nonroot_names_elem(doc@.bones, j as int, k - doc@.slots.len());
                    assert(bone_dup(doc@.bones, j as int));
                }
                return Err(LoadError::DuplicateIdentity(ident));
            },
            None => {},
        }
        let pos = index.names.len();
        proof {
            assert(pos as int == index@.names.len());
            assert(pos as int == bone_pos(doc@, j as int));
            assert(!bone_dup(doc@.bones, j as int)) by {
                if bone_dup(doc@.bones, j as int) {
                    let j2 = choose|j2: int|
                        0 <= j2 < j && !bone_skipped(#[trigger] doc@.bones[j2]) && doc@.bones[
                            j2
                        ].name == doc@.bones[j as int].name;
                    lemma_nonroot_name_at(doc@.bones, j as int, j2);
                    assert(index@.names[doc@.slots.len() + nonroot_rank(doc@.bones, j2)]
                        == NameV::Bone(doc@.bones[j as int].name));
                    assert(index_has(index@, ident@));
                }
            }
        }
        let transform = match b.transform {
            Some(t) => t,
            None => Transform::empty(),
        };
        proof {
            assert(pos as int <= nslots + j);
            assert(pos as int + 1 <= u64::MAX as int);
        }
        let node = Node { id: (pos as u64) + 1, kind: NodeKind::Bone, transform };
        proof {
            assert(node == bone_node(doc@, j as int));
            lemma_nonroot_names_step(doc@.bones, j as int);
        }
        let ghost pre = index@;
        index.push(ident, Placement::Staged(node));
        proof {
            assert(index_wf(index@)) by {
                assert(forall|k: int|
                    0 <= k < pre.names.len() ==> (#[trigger] index@.names[k]) == pre.names[k]);
                assert(index@.names[pre.names.len() as int] == ident@);
                assert(forall|k: int|
                    0 <= k < pre.names.len() ==> (#[trigger] pre.names[k]) != ident@);
            }
            assert(index@.names =~= slot_names_of(doc@.slots) + nonroot_bone_names(
                doc@.bones.take(j as int + 1),
            ));
            assert(forall|k: int|
                0 <= k < pre.places.len() ==> (#[trigger] index@.places[k]) == pre.places[k]);
            assert(old(index)@.places.len() == doc@.slots.len());
            assert forall|k: int|
                0 <= k < old(index)@.places.len() implies (#[trigger] index@.places[k]) == old(
                index,
            )@.places[k] by {
                assert(index@.places[k] == pre.places[k]);
            }
            assert forall|j2: int|
                0 <= j2 < j + 1 && !bone_skipped(#[trigger] doc@.bones[j2]) implies index@.places[
                bone_pos(doc@, j2)
            ] == Placement::Staged(bone_node(doc@, j2)) by {
                if j2 == j as int {
                    assert(index@.places[bone_pos(doc@, j2)] == Placement::Staged(node));
                } else {
                    lemma_nonroot_name_at(doc@.bones, j as int, j2);
                    assert(bone_pos(doc@, j2) < pre.places.len());
                    assert(index@.places[bone_pos(doc@, j2)] == pre.places[bone_pos(doc@, j2)]);
                }
            }
        }
        j = j + 1;
    }
    proof {
        assert(doc@.bones.take(n as int) =~= doc@.bones);
    }
    Ok(())
}


// ---------------------------------------------------------------------
// Dangling-parent check.
// ---------------------------------------------------------------------

/// Does the parent name answer to an identity?
fn parent_known_exec(doc: &Character, root_key: &String, p: &String) -> (r: bool)
    requires
        root_key@ == root_name(),
    ensures
        r == parent_known(doc@.bones, p@),
{
    if *p == *root_key {
        return true;
    }
    let n = doc.bones.len();
    let mut j: usize = 0;
    while j < n
        invariant
            j <= n,
            n == doc.bones@.len(),
            doc@.bones.len() == n,
            p@ != root_name(),
            forall|k: int| 0 <= k < j ==> (#[trigger] doc@.bones[k].name) != p@,
        decreases n - j,
    {
        proof {
            assert(doc@.bones[j as int] == doc.bones@[j as int]@);
        }
        let b = &doc.bones[j];
        if b.name == *p {
            proof {
                assert(doc@.bones[j as int].name == p@);
            }
            return true;
        }
        j = j + 1;
    }
    false
}

/// Reject the first record whose parent name answers to nothing.
fn check_parents(doc: &Character) -> (r: Result<(), LoadError>)
    ensures
        match r {
            Ok(()) => dangling_err(doc@) is None,
            Err(e) => dangling_err(doc@) == Some(e@),
        },
{
    let root_key: String = "root".to_owned();
    let ns = doc.slots.len();
    let mut i: usize = 0;
    while i < ns
        invariant
            i <= ns,
            ns == doc.slots@.len(),
            doc@.slots.len() == ns,
            root_key@ == root_name(),
            slot_dangling_from(doc@, 0) == slot_dangling_from(doc@, i as int),
        decreases ns - i,
    {
        proof {
            assert(doc@.slots[i as int] == doc.slots@[i as int]@);
        }
        if !parent_known_exec(doc, &root_key, &doc.slots[i].parent) {
            return Err(LoadError::UnknownParent(doc.slots[i].parent.clone()));
        }
        i = i + 1;
    }
    let nb = doc.bones.len();
    let mut j: usize = 0;
    while j < nb
        invariant
            j <= nb,
            nb == doc.bones@.len(),
            doc@.bones.len() == nb,
            root_key@ == root_name(),
            slot_dangling_from(doc@, 0) is None,
            bone_dangling_from(doc@, 0) == bone_dangling_from(doc@, j as int),
        decreases nb - j,
    {
        proof {
            assert(doc@.bones[j as int] == doc.bones@[j as int]@);
        }
        let b = &doc.bones[j];
        if !(b.name == root_key) {
            match &b.parent {
                Some(p) => {
                    if !parent_known_exec(doc, &root_key, p) {
                        return Err(LoadError::UnknownParent(p.clone()));
                    }
                },
                None => {},
            }
        }
        j = j + 1;
    }
    Ok(())
}

// ---------------------------------------------------------------------
// From staging to resolution.
// ---------------------------------------------------------------------

proof fn lemma_inserted_count_zero(places: Seq<Placement>, upto: int)
    requires
        0 <= upto <= places.len(),
        forall|k: int| 0 <= k < upto ==> !((#[trigger] places[k]) is Inserted),
    ensures
        inserted_count(places, upto) == 0,
    decreases upto,
{
    if upto > 0 {
        lemma_inserted_count_zero(places, upto - 1);
    }
}

/// The staged index plus the freshly inserted root satisfy the resolution
/// invariant, with nothing attached yet.
#[verifier::rlimit(60)]
proof fn lemma_post_staging(doc: CharacterV, atlas: AtlasV, ix: IdentityIndexV, nodes: Seq<
    StoreNode,
>)
    requires
        ix.names == index_names_of(doc),
        ix.places.len() == ix.names.len(),
        index_wf(ix),
        ix.places[ix.names.len() - 1] == Placement::Inserted(0u64),
        forall|i: int|
            0 <= i < doc.slots.len() ==> (#[trigger] ix.places[i]) == Placement::Staged(
                slot_node(doc, atlas, i),
            ),
        forall|j: int|
            0 <= j < doc.bones.len() && !bone_skipped(#[trigger] doc.bones[j]) ==> ix.places[
                bone_pos(doc, j)
            ] == Placement::Staged(bone_node(doc, j)),
        nodes == seq![StoreNode { node: root_node(), parent: None }],
        doc.slots.len() + doc.bones.len() < u64::MAX as int,
    ensures
        resolution_inv(doc, atlas, ix, nodes),
        inserted_sound(doc, ix),
{
    reveal(resolution_inv);
    reveal(inserted_sound);
    let last = ix.names.len() - 1;
    let s = doc.slots.len() as int;
    let nb = nonroot_bone_names(doc.bones);
    assert(last == s + nb.len());
    assert(doc.bones.take(doc.bones.len() as int) =~= doc.bones);
    lemma_nonroot_len(doc.bones, doc.bones.len() as int);
    assert(last < u64::MAX as int);

    // Every record position is staged, with identifier position + 1.
    assert forall|p: int| 0 <= p < last implies place_id(#[trigger] ix.places[p]) == p + 1 by {
        lemma_index_entry_shape(doc, ix, p);
        if p < s {
        } else {
            let j2 = choose|j2: int|
                0 <= j2 < doc.bones.len() && !bone_skipped(#[trigger] doc.bones[j2]) && ix.names[p]
                    == NameV::Bone(doc.bones[j2].name) && bone_pos(doc, j2) == p;
            assert(ix.places[p] == Placement::Staged(bone_node(doc, j2)));
        }
    }
    assert forall|p: int| 0 <= p < last implies !((#[trigger] ix.places[p]) is Inserted) by {
        lemma_index_entry_shape(doc, ix, p);
        if p < s {
        } else {
            let j2 = choose|j2: int|
                0 <= j2 < doc.bones.len() && !bone_skipped(#[trigger] doc.bones[j2]) && ix.names[p]
                    == NameV::Bone(doc.bones[j2].name) && bone_pos(doc, j2) == p;
            assert(ix.places[p] == Placement::Staged(bone_node(doc, j2)));
        }
    }
    lemma_inserted_count_zero(ix.places, last);
    assert(store_wf(nodes)) by {
        assert(forall|i: int| 0 <= i < nodes.len() ==> #[trigger] parent_linked(nodes, i));
    }
    assert(store_rooted(nodes));
    assert forall|i: int| 0 <= i < doc.slots.len() implies slot_entry_ok(
        doc,
        atlas,
        ix,
        nodes,
        i,
    ) by {
        assert(!store_contains_id(nodes, (i + 1) as u64)) by {
            if store_contains_id(nodes, (i + 1) as u64) {
                let k = choose|k: int|
                    0 <= k < nodes.len() && (#[trigger] nodes[k].node.id) == (i + 1) as u64;
                assert(nodes[k] == nodes[0]);
            }
        }
    }
    assert forall|j: int| 0 <= j < doc.bones.len() implies bone_entry_ok(doc, ix, nodes, j) by {
        if !bone_skipped(doc.bones[j]) {
            let bp = bone_pos(doc, j);
            lemma_nonroot_name_at(doc.bones, doc.bones.len() as int, j);
            assert(!store_contains_id(nodes, (bp + 1) as u64)) by {
                if store_contains_id(nodes, (bp + 1) as u64) {
                    let k = choose|k: int|
                        0 <= k < nodes.len() && (#[trigger] nodes[k].node.id) == (bp + 1) as u64;
                    assert(nodes[k] == nodes[0]);
                }
            }
        }
    }
}

/// Placement can only move from staged to inserted; sweeps never undo
/// work, so completeness facts carry across them.
proof fn lemma_swept_monotone(doc: CharacterV, ix1: IdentityIndexV, ix2: IdentityIndexV, f: int)
    requires
        ix1.names == index_names_of(doc),
        ix2.names == ix1.names,
        ix1.places.len() == ix1.names.len(),
        ix2.places.len() == ix2.names.len(),
        forall|p: int|
            0 <= p < ix1.places.len() && (#[trigger] ix1.places[p]) is Inserted
                ==> ix2.places[p] is Inserted,
        swept(doc, ix1, f),
    ensures
        swept(doc, ix2, f),
{
    reveal(swept);
    if f >= 0 {
        assert(doc.bones.take(doc.bones.len() as int) =~= doc.bones);
        assert forall|i: int|
            0 <= i < doc.slots.len() && reaches_root(
                doc.bones,
                (#[trigger] doc.slots[i]).parent,
                f as nat,
            ) implies ix2.places[i] is Inserted by {
            assert(ix1.places[i] is Inserted);
        }
        assert forall|j: int|
            0 <= j < doc.bones.len() && !bone_skipped(#[trigger] doc.bones[j]) && doc.bones[
                j
            ].parent is Some && reaches_root(
                doc.bones,
                doc.bones[j].parent->Some_0,
                f as nat,
            ) implies ix2.places[bone_pos(doc, j)] is Inserted by {
            lemma_nonroot_name_at(doc.bones, doc.bones.len() as int, j);
            assert(ix1.places[bone_pos(doc, j)] is Inserted);
        }
    }
}

// ---------------------------------------------------------------------
// Resolution sweeps.
// ---------------------------------------------------------------------


/// After enough sweeps, a record is store-resident exactly when its parent
/// chain reaches the root.
#[verifier::rlimit(60)]
proof fn lemma_resolve_final(
    doc: CharacterV,
    atlas: AtlasV,
    ix: IdentityIndexV,
    nodes: Seq<StoreNode>,
    total: int,
)
    requires
        resolution_inv(doc, atlas, ix, nodes),
        inserted_sound(doc, ix),
        swept(doc, ix, total),
        total == doc.slots.len() + doc.bones.len(),
    ensures
        forall|i: int|
            0 <= i < doc.slots.len() ==> ((#[trigger] ix.places[i]) is Inserted <==> resolvable(
                doc,
                doc.slots[i].parent,
            )),
        forall|j: int|
            0 <= j < doc.bones.len() && !bone_skipped(#[trigger] doc.bones[j]) && doc.bones[
                j
            ].parent is Some ==> (ix.places[bone_pos(doc, j)] is Inserted <==> resolvable(
                doc,
                doc.bones[j].parent->Some_0,
            )),
{
    reveal(resolution_inv);
    reveal(inserted_sound);
    reveal(swept);
    let lastp = ix.names.len() - 1;
    lemma_inserted_count_bounds(ix.places, lastp);
    lemma_nonroot_len(doc.bones, doc.bones.len() as int);
    assert(doc.bones.take(doc.bones.len() as int) =~= doc.bones);
    let cnt = inserted_count(ix.places, lastp);
    assert(cnt <= total);
    assert forall|i: int| 0 <= i < doc.slots.len() implies ((#[trigger] ix.places[i]) is Inserted
        <==> resolvable(doc, doc.slots[i].parent)) by {
        if ix.places[i] is Inserted {
            lemma_reaches_mono(doc.bones, doc.slots[i].parent, cnt as nat, total as nat);
        }
    }
    assert forall|j: int|
        0 <= j < doc.bones.len() && !bone_skipped(#[trigger] doc.bones[j]) && doc.bones[
        j
    ].parent is Some implies (ix.places[bone_pos(doc, j)] is Inserted <==> resolvable(
        doc,
        doc.bones[j].parent->Some_0,
    )) by {
        lemma_nonroot_name_at(doc.bones, doc.bones.len() as int, j);
        if ix.places[bone_pos(doc, j)] is Inserted {
            lemma_reaches_mono(doc.bones, doc.bones[j].parent->Some_0, cnt as nat, total as nat);
        }
    }
}

/// Move every resolvable record into the store. One sweep attaches every
/// record whose parent is already store-resident; as many sweeps as there
/// are records settle every chain that reaches the root.
#[verifier::rlimit(100)]
fn resolve(doc: &Character, atlas: &Atlas, index: &mut IdentityIndex, store: &mut NodeStore)
    requires
        resolution_inv(doc@, atlas@, old(index)@, old(store).nodes@),
        inserted_sound(doc@, old(index)@),
        dangling_err(doc@) is None,
        doc@.slots.len() + doc@.bones.len() < u64::MAX as int,
    ensures
        resolution_inv(doc@, atlas@, final(index)@, final(store).nodes@),
        final(index)@.names == old(index)@.names,
        final(store).running == old(store).running,
        forall|i: int|
            0 <= i < doc@.slots.len() ==> ((#[trigger] final(index)@.places[i]) is Inserted
                <==> resolvable(doc@, doc@.slots[i].parent)),
        forall|j: int|
            0 <= j < doc@.bones.len() && !bone_skipped(#[trigger] doc@.bones[j]) && doc@.bones[
                j
            ].parent is Some ==> (final(index)@.places[bone_pos(doc@, j)] is Inserted
                <==> resolvable(doc@, doc@.bones[j].parent->Some_0)),
{
    let total: u64 = doc.slots.len() as u64 + doc.bones.len() as u64;
    let mut sweep: u64 = 0;
    proof {
        reveal(swept);
        assert(swept(doc@, index@, -1));
    }
    while sweep <= total
        invariant
            sweep <= total + 1,
            total == doc@.slots.len() + doc@.bones.len(),
            total < u64::MAX,
            doc@.slots.len() == doc.slots@.len(),
            doc@.bones.len() == doc.bones@.len(),
            resolution_inv(doc@, atlas@, index@, store.nodes@),
            inserted_sound(doc@, index@),
            dangling_err(doc@) is None,
            store.running == old(store).running,
            index@.names == old(index)@.names,
            swept(doc@, index@, sweep as int - 1),
        decreases total + 1 - sweep,
    {
        let ns = doc.slots.len();
        let mut i: usize = 0;
        while i < ns
            invariant
                i <= ns,
                ns == doc.slots@.len(),
                doc@.slots.len() == ns,
                doc@.bones.len() == doc.bones@.len(),
                resolution_inv(doc@, atlas@, index@, store.nodes@),
                inserted_sound(doc@, index@),
                dangling_err(doc@) is None,
                store.running == old(store).running,
                index@.names == old(index)@.names,
                swept(doc@, index@, sweep as int - 1),
                forall|k: int|
                    0 <= k < i && reaches_root(
                        doc@.bones,
                        (#[trigger] doc@.slots[k]).parent,
                        sweep as nat,
                    ) ==> index@.places[k] is Inserted,
            decreases ns - i,
        {
            proof {
                assert(doc@.slots[i as int] == doc.slots@[i as int]@);
                lemma_slot_dangling_none(doc@, 0, i as int);
                assert(i < index@.names.len() - 1) by {
                    reveal(resolution_inv);
                    assert(index@.names.len() == doc@.slots.len() + nonroot_bone_names(
                        doc@.bones,
                    ).len() + 1);
                }
            }
            let ghost pre = index@;
            try_attach(
                doc,
                atlas,
                index,
                store,
                i,
                &doc.slots[i].parent,
                Ghost(i as int),
                Ghost(sweep as int),
            );
            proof {
                reveal(resolution_inv);
                lemma_swept_monotone(doc@, pre, index@, sweep as int - 1);
                assert forall|k: int|
                    0 <= k < i + 1 && reaches_root(
                        doc@.bones,
                        (#[trigger] doc@.slots[k]).parent,
                        sweep as nat,
                    ) implies index@.places[k] is Inserted by {
                    reveal(resolution_inv);
                    if k == i as int {
                    } else {
                        assert(pre.places[k] is Inserted);
                    }
                }
            }
            i = i + 1;
        }
        let nb = doc.bones.len();
        let mut j: usize = 0;
        let mut bpos: usize = doc.slots.len();
        let root_key: String = "root".to_owned();
        proof {
            assert(nonroot_bone_names(doc@.bones.take(0)) =~= Seq::<NameV>::empty());
        }
        while j < nb
            invariant
                j <= nb,
                nb == doc.bones@.len(),
                doc@.bones.len() == nb,
                ns == doc.slots@.len(),
                doc@.slots.len() == ns,
                root_key@ == root_name(),
                bpos as int == doc@.slots.len() + nonroot_rank(doc@.bones, j as int),
                resolution_inv(doc@, atlas@, index@, store.nodes@),
                inserted_sound(doc@, index@),
                dangling_err(doc@) is None,
                store.running == old(store).running,
                index@.names == old(index)@.names,
                swept(doc@, index@, sweep as int - 1),
                forall|k: int|
                    0 <= k < doc@.slots.len() && reaches_root(
                        doc@.bones,
                        (#[trigger] doc@.slots[k]).parent,
                        sweep as nat,
                    ) ==> index@.places[k] is Inserted,
                forall|j2: int|
                    0 <= j2 < j && !bone_skipped(#[trigger] doc@.bones[j2]) && doc@.bones[
                        j2
                    ].parent is Some && reaches_root(
                        doc@.bones,
                        doc@.bones[j2].parent->Some_0,
                        sweep as nat,
                    ) ==> index@.places[bone_pos(doc@, j2)] is Inserted,
            decreases nb - j,
        {
            proof {
                assert(doc@.bones[j as int] == doc.bones@[j as int]@);
                lemma_nonroot_names_step(doc@.bones, j as int);
            }
            let b = &doc.bones[j];
            if b.name == root_key {
                proof {
                    assert(bone_skipped(doc@.bones[j as int]));
                }
                j = j + 1;
                continue ;
            }
            proof {
                assert(!bone_skipped(doc@.bones[j as int]));
                lemma_nonroot_name_at(doc@.bones, doc@.bones.len() as int, j as int);
                assert(doc@.bones.take(doc@.bones.len() as int) =~= doc@.bones);
                assert(bpos as int == bone_pos(doc@, j as int));
                assert((bpos as int) < index@.names.len() - 1) by {
                    reveal(resolution_inv);
                    assert(index@.names.len() == doc@.slots.len() + nonroot_bone_names(
                        doc@.bones,
                    ).len() + 1);
                }
            }
            match &b.parent {
                Some(p) => {
                    proof {
                        lemma_bone_dangling_none(doc@, 0, j as int);
                        assert(record_parent_at(doc@, bpos as int, j as int, p@));
                    }
                    let ghost pre = index@;
                    try_attach(doc, atlas, index, store, bpos, p, Ghost(j as int), Ghost(
                        sweep as int,
                    ));
                    proof {
                        reveal(resolution_inv);
                        lemma_swept_monotone(doc@, pre, index@, sweep as int - 1);
                        assert forall|k: int|
                            0 <= k < doc@.slots.len() && reaches_root(
                                doc@.bones,
                                (#[trigger] doc@.slots[k]).parent,
                                sweep as nat,
                            ) implies index@.places[k] is Inserted by {
                            reveal(resolution_inv);
                            assert(pre.places[k] is Inserted);
                            assert(k != bpos as int);
                        }
                        assert forall|j2: int|
                            0 <= j2 < j + 1 && !bone_skipped(#[trigger] doc@.bones[j2])
                                && doc@.bones[j2].parent is Some && reaches_root(
                                doc@.bones,
                                doc@.bones[j2].parent->Some_0,
                                sweep as nat,
                            ) implies index@.places[bone_pos(doc@, j2)] is Inserted by {
                            reveal(resolution_inv);
                            if j2 == j as int {
                            } else {
                                assert(pre.places[bone_pos(doc@, j2)] is Inserted);
                                lemma_nonroot_name_at(
                                    doc@.bones,
                                    doc@.bones.len() as int,
                                    j2,
                                );
                                if bone_pos(doc@, j2) != bpos as int {
                                } else {
                                    lemma_bone_pos_injective(doc@, j as int, j2);
                                }
                            }
                        }
                    }
                },
                None => {},
            }
            let cap = index.places.len();
            proof {
                assert(bpos < cap) by {
                    reveal(resolution_inv);
                }
            }
            bpos = bpos + 1;
            j = j + 1;
        }
        proof {
            assert(doc@.bones.take(nb as int) =~= doc@.bones);
            assert(swept(doc@, index@, sweep as int)) by {
                reveal(swept);
            }
        }
        sweep = sweep + 1;
    }
    proof {
        lemma_resolve_final(doc@, atlas@, index@, store.nodes@, total as int);
    }
}


// ---------------------------------------------------------------------
// The final check and the assembler itself.
// ---------------------------------------------------------------------

/// Reject the first record that never made it into the store: its parent
/// chain does not reach the root.
#[verifier::rlimit(60)]
fn final_check(doc: &Character, index: &IdentityIndex) -> (r: Result<(), LoadError>)
    requires
        index@.names.len() == index@.places.len(),
        index@.names.len() == index_names_of(doc@).len(),
        forall|i: int|
            0 <= i < doc@.slots.len() ==> ((#[trigger] index@.places[i]) is Inserted
                <==> resolvable(doc@, doc@.slots[i].parent)),
        forall|j: int|
            0 <= j < doc@.bones.len() && !bone_skipped(#[trigger] doc@.bones[j]) && doc@.bones[
                j
            ].parent is Some ==> (index@.places[bone_pos(doc@, j)] is Inserted <==> resolvable(
                doc@,
                doc@.bones[j].parent->Some_0,
            )),
    ensures
        match r {
            Ok(()) => {
                &&& stuck_err(doc@) is None
                &&& forall|i: int|
                    0 <= i < doc@.slots.len() ==> (#[trigger] index@.places[i]) is Inserted
                &&& forall|j: int|
                    0 <= j < doc@.bones.len() && !bone_skipped(#[trigger] doc@.bones[j])
                        && doc@.bones[j].parent is Some ==> index@.places[bone_pos(
                        doc@,
                        j,
                    )] is Inserted
            },
            Err(e) => stuck_err(doc@) == Some(e@),
        },
{
    let ns = doc.slots.len();
    let mut i: usize = 0;
    while i < ns
        invariant
            i <= ns,
            ns == doc.slots@.len(),
            doc@.slots.len() == ns,
            index@.names.len() == index@.places.len(),
            index@.names.len() == index_names_of(doc@).len(),
            forall|i2: int|
                0 <= i2 < doc@.slots.len() ==> ((#[trigger] index@.places[i2]) is Inserted
                    <==> resolvable(doc@, doc@.slots[i2].parent)),
            slot_stuck_from(doc@, 0) == slot_stuck_from(doc@, i as int),
            forall|k: int| 0 <= k < i ==> (#[trigger] index@.places[k]) is Inserted,
        decreases ns - i,
    {
        proof {
            assert(doc@.slots[i as int] == doc.slots@[i as int]@);
            assert(index@.names.len() == doc@.slots.len() + nonroot_bone_names(
                doc@.bones,
            ).len() + 1);
        }
        match index.places[i] {
            Placement::Staged(_) => {
                proof {
                    assert(!resolvable(doc@, doc@.slots[i as int].parent));
                }
                return Err(LoadError::UnknownParent(doc.slots[i].parent.clone()));
            },
            Placement::Inserted(_) => {},
        }
        i = i + 1;
    }
    let nb = doc.bones.len();
    let mut j: usize = 0;
    let mut bpos: usize = doc.slots.len();
    let root_key: String = "root".to_owned();
    proof {
        assert(nonroot_bone_names(doc@.bones.take(0)) =~= Seq::<NameV>::empty());
    }
    while j < nb
        invariant
            j <= nb,
            nb == doc.bones@.len(),
            doc@.bones.len() == nb,
            ns == doc.slots@.len(),
            doc@.slots.len() == ns,
            root_key@ == root_name(),
            bpos as int == doc@.slots.len() + nonroot_rank(doc@.bones, j as int),
            index@.names.len() == index@.places.len(),
            index@.names.len() == index_names_of(doc@).len(),
            forall|j2: int|
                0 <= j2 < doc@.bones.len() && !bone_skipped(#[trigger] doc@.bones[j2])
                    && doc@.bones[j2].parent is Some ==> (index@.places[bone_pos(
                    doc@,
                    j2,
                )] is Inserted <==> resolvable(doc@, doc@.bones[j2].parent->Some_0)),
            slot_stuck_from(doc@, 0) is None,
            bone_stuck_from(doc@, 0) == bone_stuck_from(doc@, j as int),
            forall|k: int| 0 <= k < doc@.slots.len() ==> (#[trigger] index@.places[k]) is Inserted,
            forall|j2: int|
                0 <= j2 < j && !bone_skipped(#[trigger] doc@.bones[j2]) && doc@.bones[
                    j2
                ].parent is Some ==> index@.places[bone_pos(doc@, j2)] is Inserted,
        decreases nb - j,
    {
        proof {
            assert(doc@.bones[j as int] == doc.bones@[j as int]@);
            lemma_nonroot_names_step(doc@.bones, j as int);
        }
        let b = &doc.bones[j];
        if b.name == root_key {
            proof {
                assert(bone_skipped(doc@.bones[j as int]));
            }
            j = j + 1;
            continue ;
        }
        proof {
            assert(!bone_skipped(doc@.bones[j as int]));
            lemma_nonroot_name_at(doc@.bones, doc@.bones.len() as int, j as int);
            assert(doc@.bones.take(doc@.bones.len() as int) =~= doc@.bones);
            assert(bpos as int == bone_pos(doc@, j as int));
            assert((bpos as int) < index@.names.len() - 1) by {
                assert(index@.names.len() == doc@.slots.len() + nonroot_bone_names(
                    doc@.bones,
                ).len() + 1);
            }
        }
        match &b.parent {
            Some(p) => {
                match index.places[bpos] {
                    Placement::Staged(_) => {
                        proof {
                            assert(!resolvable(doc@, doc@.bones[j as int].parent->Some_0));
                        }
                        return Err(LoadError::UnknownParent(p.clone()));
                    },
                    Placement::Inserted(_) => {},
                }
            },
            None => {},
        }
        let cap = index.places.len();
        proof {
            assert(bpos < cap);
        }
        bpos = bpos + 1;
        j = j + 1;
    }
    proof {
        assert(doc@.bones.take(nb as int) =~= doc@.bones);
    }
    Ok(())
}

/// Assemble the scene from the parsed document and the atlas.
///
/// Succeeds exactly on documents whose slots all name known regions, whose
/// identities are distinct, whose bones — but for the one the synthesized
/// root stands for — all carry a parent, and whose parent references all
/// resolve through chains that reach the root; the first offending record
/// otherwise decides the error (see `assemble_err`). On success the store holds the
/// synthesized root and one node per attached record, every ancestor chain
/// ends at the root, and the index resolves every identity; nothing is
/// handed out on failure, so no partial scene ever escapes.
#[verifier::rlimit(60)]
pub fn assemble(doc: &Character, atlas: &Atlas) -> (r: Result<Assembly, LoadError>)
    requires
        doc@.slots.len() + doc@.bones.len() < u64::MAX as int,
    ensures
        match r {
            Ok(scene) => {
                &&& assemble_err(doc@, atlas@) is None
                &&& assembled(doc@, atlas@, scene.index@, scene.store.nodes@)
                &&& scene.store.running@ == Seq::<(u64, crate::animation::BoneProgram)>::empty()
                &&& scene.root_id == 0
            },
            Err(e) => assemble_err(doc@, atlas@) == Some(e@),
        },
{
    let mut index = IdentityIndex::new();
    match stage_slots(doc, atlas, &mut index) {
        Ok(()) => {},
        Err(e) => {
            return Err(e);
        },
    }
    match stage_bones(doc, &mut index) {
        Ok(()) => {},
        Err(e) => {
            return Err(e);
        },
    }
    let mut store = NodeStore::new();
    let root = Node { id: 0, kind: NodeKind::Bone, transform: Transform::empty() };
    proof {
        assert(!store_contains_id(store.nodes@, 0u64));
    }
    store.insert_root(root);
    let ghost pre_root = index@;
    index.push(Name::BoneName("root".to_owned()), Placement::Inserted(0));
    proof {
        let s = doc@.slots.len() as int;
        assert(index@.names =~= index_names_of(doc@));
        assert(index_wf(index@)) by {
            assert(forall|k: int|
                0 <= k < pre_root.names.len() ==> (#[trigger] index@.names[k]) == pre_root.names[
                    k
                ]);
            assert(index@.names[pre_root.names.len() as int] == NameV::Bone(root_name()));
            assert forall|k: int| 0 <= k < pre_root.names.len() implies (
            #[trigger] pre_root.names[k]) != NameV::Bone(root_name()) by {
                if k < s {
                    assert(pre_root.names[k] == slot_names_of(doc@.slots)[k]);
                } else {
                    lemma_nonroot_names_no_root(doc@.bones, doc@.bones.len() as int);
                    assert(doc@.bones.take(doc@.bones.len() as int) =~= doc@.bones);
                    assert(pre_root.names[k] == nonroot_bone_names(doc@.bones)[k - s]);
                }
            }
        }
        assert(store.nodes@ =~= seq![StoreNode { node: root_node(), parent: None }]);
        assert(index@.places[index@.names.len() - 1] == Placement::Inserted(0u64));
        assert(forall|i: int|
            0 <= i < doc@.slots.len() ==> (#[trigger] index@.places[i]) == Placement::Staged(
                slot_node(doc@, atlas@, i),
            ));
        assert forall|j: int|
            0 <= j < doc@.bones.len() && !bone_skipped(#[trigger] doc@.bones[j]) implies index@
            .places[bone_pos(doc@, j)] == Placement::Staged(bone_node(doc@, j)) by {
            lemma_nonroot_name_at(doc@.bones, doc@.bones.len() as int, j);
            assert(doc@.bones.take(doc@.bones.len() as int) =~= doc@.bones);
        }
        lemma_post_staging(doc@, atlas@, index@, store.nodes@);
    }
    match check_parents(doc) {
        Ok(()) => {},
        Err(e) => {
            return Err(e);
        },
    }
    resolve(doc, atlas, &mut index, &mut store);
    proof {
        reveal(resolution_inv);
        assert(index@.names.len() == index@.places.len());
        assert(index@.names.len() == index_names_of(doc@).len());
    }
    match final_check(doc, &index) {
        Ok(()) => {},
        Err(e) => {
            return Err(e);
        },
    }
    Ok(Assembly { store, index, root_id: 0 })
}


// ---------------------------------------------------------------------
// Laws of the assembled scene.
// ---------------------------------------------------------------------

/// The first slot record carrying this name.
pub open spec fn slot_record_of(slots: Seq<SlotV>, nm: Seq<char>) -> Option<SlotV>
    decreases slots.len(),
{
    if slots.len() == 0 {
        None
    } else if slots[0].name == nm {
        Some(slots[0])
    } else {
        slot_record_of(slots.drop_first(), nm)
    }
}

/// The first bone record carrying this name.
pub open spec fn bone_record_of(bones: Seq<BoneV>, nm: Seq<char>) -> Option<BoneV>
    decreases bones.len(),
{
    if bones.len() == 0 {
        None
    } else if bones[0].name == nm {
        Some(bones[0])
    } else {
        bone_record_of(bones.drop_first(), nm)
    }
}

/// Two documents hold the same records, in whatever order: every name maps
/// to the same slot record and the same bone record in both.
pub open spec fn same_records(d1: CharacterV, d2: CharacterV) -> bool {
    &&& forall|nm: Seq<char>|
        #![trigger slot_record_of(d1.slots, nm)]
        slot_record_of(d1.slots, nm) == slot_record_of(d2.slots, nm)
    &&& forall|nm: Seq<char>|
        #![trigger bone_record_of(d1.bones, nm)]
        bone_record_of(d1.bones, nm) == bone_record_of(d2.bones, nm)
}

proof fn lemma_slot_record_found(slots: Seq<SlotV>, nm: Seq<char>)
    requires
        slot_record_of(slots, nm) is Some,
    ensures
        exists|i: int|
            0 <= i < slots.len() && (#[trigger] slots[i]) == slot_record_of(slots, nm)->Some_0
                && slots[i].name == nm,
    decreases slots.len(),
{
    if slots[0].name == nm {
    } else {
        lemma_slot_record_found(slots.drop_first(), nm);
        let i = choose|i: int|
            0 <= i < slots.drop_first().len() && (#[trigger] slots.drop_first()[i])
                == slot_record_of(slots.drop_first(), nm)->Some_0 && slots.drop_first()[i].name
                == nm;
        assert(slots[i + 1] == slots.drop_first()[i]);
    }
}

proof fn lemma_bone_record_found(bones: Seq<BoneV>, nm: Seq<char>)
    requires
        bone_record_of(bones, nm) is Some,
    ensures
        exists|j: int|
            0 <= j < bones.len() && (#[trigger] bones[j]) == bone_record_of(bones, nm)->Some_0
                && bones[j].name == nm,
    decreases bones.len(),
{
    if bones[0].name == nm {
    } else {
        lemma_bone_record_found(bones.drop_first(), nm);
        let j = choose|j: int|
            0 <= j < bones.drop_first().len() && (#[trigger] bones.drop_first()[j])
                == bone_record_of(bones.drop_first(), nm)->Some_0 && bones.drop_first()[j].name
                == nm;
        assert(bones[j + 1] == bones.drop_first()[j]);
    }
}

/// Every record of a successfully assembled document yields exactly one
/// node in the store — the store holds the synthesized root at position 0
/// plus one node per attached record, under distinct identifiers — and
/// every node's ancestor chain terminates at the synthesized root.
pub proof fn lemma_assembled_tree(
    doc: CharacterV,
    atlas: AtlasV,
    ix: IdentityIndexV,
    nodes: Seq<StoreNode>,
)
    requires
        assembled(doc, atlas, ix, nodes),
    ensures
        store_wf(nodes),
        store_rooted(nodes),
        nodes.len() >= 1 && nodes[0] == (StoreNode { node: root_node(), parent: None }),
        forall|i: int|
            0 <= i < doc.slots.len() ==> store_has_node(
                nodes,
                slot_node(doc, atlas, i),
                Some(index_id(ix, NameV::Bone((#[trigger] doc.slots[i]).parent))),
            ),
        forall|j: int|
            0 <= j < doc.bones.len() && !bone_skipped(#[trigger] doc.bones[j]) && doc.bones[
                j
            ].parent is Some ==> store_has_node(
                nodes,
                bone_node(doc, j),
                Some(index_id(ix, NameV::Bone(doc.bones[j].parent->Some_0))),
            ),
        forall|k: int| 0 <= k < nodes.len() ==> #[trigger] chain_root(nodes, k) == 0,
{
    reveal(resolution_inv);
    assert forall|i: int| 0 <= i < doc.slots.len() implies store_has_node(
        nodes,
        slot_node(doc, atlas, i),
        Some(index_id(ix, NameV::Bone((#[trigger] doc.slots[i]).parent))),
    ) by {
        assert(slot_entry_ok(doc, atlas, ix, nodes, i));
        assert(ix.places[i] is Inserted);
    }
    assert forall|j: int|
        0 <= j < doc.bones.len() && !bone_skipped(#[trigger] doc.bones[j]) && doc.bones[
        j
    ].parent is Some implies store_has_node(
        nodes,
        bone_node(doc, j),
        Some(index_id(ix, NameV::Bone(doc.bones[j].parent->Some_0))),
    ) by {
        assert(bone_entry_ok(doc, ix, nodes, j));
        assert(ix.places[bone_pos(doc, j)] is Inserted);
    }
    assert forall|k: int| 0 <= k < nodes.len() implies #[trigger] chain_root(nodes, k) == 0 by {
        lemma_chain_root_zero(nodes, k);
    }
}

/// The node a slot record receives is decided by the record alone: its
/// rectangle and transform under its own identity's identifier, owned by
/// its parent bone's identifier.
pub proof fn lemma_assembled_slot_node(
    doc: CharacterV,
    atlas: AtlasV,
    ix: IdentityIndexV,
    nodes: Seq<StoreNode>,
    nm: Seq<char>,
)
    requires
        assembled(doc, atlas, ix, nodes),
        slot_record_of(doc.slots, nm) is Some,
    ensures
        ({
            let s = slot_record_of(doc.slots, nm)->Some_0;
            store_has_node(
                nodes,
                Node {
                    id: index_id(ix, NameV::Slot(nm)),
                    kind: NodeKind::Slot(
                        rect_of(region_at(atlas.sub_texture, s.texture_name)->Some_0),
                    ),
                    transform: s.transform,
                },
                Some(index_id(ix, NameV::Bone(s.parent))),
            )
        }),
{
    reveal(resolution_inv);
    let s = slot_record_of(doc.slots, nm)->Some_0;
    lemma_slot_record_found(doc.slots, nm);
    let i = choose|i: int|
        0 <= i < doc.slots.len() && (#[trigger] doc.slots[i]) == s && doc.slots[i].name == nm;
    assert(slot_entry_ok(doc, atlas, ix, nodes, i));
    assert(ix.places[i] is Inserted);
    assert(ix.names[i] == NameV::Slot(nm));
    assert(index_has(ix, NameV::Slot(nm)));
    let p = index_pos(ix, NameV::Slot(nm));
    assert(0 <= p < ix.names.len() && ix.names[p] == NameV::Slot(nm));
    if p != i {
        assert(ix.names[p] != ix.names[i]);
    }
    assert(index_id(ix, NameV::Slot(nm)) == place_id(ix.places[i]));
    assert(place_id(ix.places[i]) == i + 1);
    assert(slot_node(doc, atlas, i) == Node {
        id: index_id(ix, NameV::Slot(nm)),
        kind: NodeKind::Slot(rect_of(region_at(atlas.sub_texture, s.texture_name)->Some_0)),
        transform: s.transform,
    });
}

/// The node a staged bone record receives is decided by the record alone:
/// a pivot with the record's transform (or the identity transform) under
/// its own identity's identifier, owned by its parent bone's identifier.
pub proof fn lemma_assembled_bone_node(
    doc: CharacterV,
    atlas: AtlasV,
    ix: IdentityIndexV,
    nodes: Seq<StoreNode>,
    nm: Seq<char>,
)
    requires
        assembled(doc, atlas, ix, nodes),
        bone_record_of(doc.bones, nm) is Some,
        nm != root_name(),
        bone_record_of(doc.bones, nm)->Some_0.parent is Some,
    ensures
        ({
            let b = bone_record_of(doc.bones, nm)->Some_0;
            store_has_node(
                nodes,
                Node {
                    id: index_id(ix, NameV::Bone(nm)),
                    kind: NodeKind::Bone,
                    transform: match b.transform {
                        Some(t) => t,
                        None => identity_transform(),
                    },
                },
                Some(index_id(ix, NameV::Bone(b.parent->Some_0))),
            )
        }),
{
    reveal(resolution_inv);
    let b = bone_record_of(doc.bones, nm)->Some_0;
    lemma_bone_record_found(doc.bones, nm);
    let j = choose|j: int|
        0 <= j < doc.bones.len() && (#[trigger] doc.bones[j]) == b && doc.bones[j].name == nm;
    assert(!bone_skipped(doc.bones[j]));
    assert(bone_entry_ok(doc, ix, nodes, j));
    assert(ix.places[bone_pos(doc, j)] is Inserted);
    assert(doc.bones.take(doc.bones.len() as int) =~= doc.bones);
    lemma_nonroot_name_at(doc.bones, doc.bones.len() as int, j);
    let bp = bone_pos(doc, j);
    assert(ix.names[bp] == NameV::Bone(nm));
    assert(index_has(ix, NameV::Bone(nm)));
    let p = index_pos(ix, NameV::Bone(nm));
    assert(0 <= p < ix.names.len() && ix.names[p] == NameV::Bone(nm));
    if p != bp {
        assert(ix.names[p] != ix.names[bp]);
    }
    assert(index_id(ix, NameV::Bone(nm)) == place_id(ix.places[bp]));
    assert(place_id(ix.places[bp]) == bp + 1);
    assert(bone_node(doc, j) == Node {
        id: index_id(ix, NameV::Bone(nm)),
        kind: NodeKind::Bone,
        transform: match b.transform {
            Some(t) => t,
            None => identity_transform(),
        },
    });
}

/// Reparenting is order-independent: two documents holding the same
/// records, however ordered, assemble to isomorphic trees. Each slot
/// record's node carries the same rectangle and transform in both stores
/// and hangs under the same parent identity, each read through its own
/// assembly's index; `lemma_assembled_bone_node` gives the same for each
/// staged bone record.
pub proof fn lemma_assemble_order_independent(
    doc1: CharacterV,
    doc2: CharacterV,
    atlas: AtlasV,
    ix1: IdentityIndexV,
    nodes1: Seq<StoreNode>,
    ix2: IdentityIndexV,
    nodes2: Seq<StoreNode>,
    nm: Seq<char>,
)
    requires
        assembled(doc1, atlas, ix1, nodes1),
        assembled(doc2, atlas, ix2, nodes2),
        same_records(doc1, doc2),
        slot_record_of(doc1.slots, nm) is Some,
    ensures
        ({
            let s = slot_record_of(doc1.slots, nm)->Some_0;
            &&& store_has_node(
                nodes1,
                Node {
                    id: index_id(ix1, NameV::Slot(nm)),
                    kind: NodeKind::Slot(
                        rect_of(region_at(atlas.sub_texture, s.texture_name)->Some_0),
                    ),
                    transform: s.transform,
                },
                Some(index_id(ix1, NameV::Bone(s.parent))),
            )
            &&& store_has_node(
                nodes2,
                Node {
                    id: index_id(ix2, NameV::Slot(nm)),
                    kind: NodeKind::Slot(
                        rect_of(region_at(atlas.sub_texture, s.texture_name)->Some_0),
                    ),
                    transform: s.transform,
                },
                Some(index_id(ix2, NameV::Bone(s.parent))),
            )
        }),
{
    lemma_assembled_slot_node(doc1, atlas, ix1, nodes1, nm);
    assert(slot_record_of(doc2.slots, nm) == slot_record_of(doc1.slots, nm));
    lemma_assembled_slot_node(doc2, atlas, ix2, nodes2, nm);
}

} // verus!
