//! Scene graph model: the node store and the name-to-identifier index.
//!
//! The rendering collaborator owns the real scene; the library models it so
//! that assembly and playback can be reasoned about. The store holds every
//! node that has entered the scene, in insertion order, each addressed by a
//! stable identifier assigned when the node was created. Ownership edges
//! always point backwards in insertion order, so every ancestor chain
//! terminates; the first inserted node is the synthesized root, the store's
//! only top-level node.
//!
//! The identity index is the single authoritative map from a node identity
//! to where its node lives: still staged awaiting a parent, or inserted in
//! the store.

use vstd::prelude::*;
use crate::animation::{BoneProgram, BoneProgramV};
use crate::character::{name_eq, Name, NameV, Transform};

verus! {

/// A pixel rectangle within the atlas image.
#[derive(Debug, Clone, Copy, PartialEq, Eq)]
pub struct Rect {
    pub x: i32,
    pub y: i32,
    pub width: i32,
    pub height: i32,
}

/// What a node is: a slot draws a texture rectangle; a bone is a pure
/// pivot, anchored at its origin rather than its centre.
#[derive(Debug, Clone, Copy, PartialEq, Eq)]
pub enum NodeKind {
    Slot(Rect),
    Bone,
}

/// One scene node: stable identifier, payload, local transform.
#[derive(Debug, Clone, Copy, PartialEq, Eq)]
pub struct Node {
    pub id: u64,
    pub kind: NodeKind,
    pub transform: Transform,
}

/// A store-resident node and its owner; `None` marks the store's top level.
#[derive(Debug, Clone, Copy, PartialEq, Eq)]
pub struct StoreNode {
    pub node: Node,
    pub parent: Option<u64>,
}

/// The node's parent, if any, entered the store earlier.
pub open spec fn parent_linked(s: Seq<StoreNode>, i: int) -> bool {
    match s[i].parent {
        Some(p) => exists|j: int| 0 <= j < i && (#[trigger] s[j].node.id) == p,
        None => true,
    }
}

/// Identifiers are distinct and every ownership edge points backwards in
/// insertion order, so the graph is a forest.
pub open spec fn store_wf(s: Seq<StoreNode>) -> bool {
    &&& forall|i: int, j: int|
        0 <= i < j < s.len() ==> (#[trigger] s[i].node.id) != (#[trigger] s[j].node.id)
    &&& forall|i: int| 0 <= i < s.len() ==> #[trigger] parent_linked(s, i)
}

/// The first node is the only top-level node: the synthesized root.
pub open spec fn store_rooted(s: Seq<StoreNode>) -> bool {
    forall|i: int| 0 <= i < s.len() ==> (((#[trigger] s[i].parent) is None) <==> i == 0)
}

pub open spec fn store_contains_id(s: Seq<StoreNode>, id: u64) -> bool {
    exists|i: int| 0 <= i < s.len() && (#[trigger] s[i].node.id) == id
}

/// The position of the node with the given identifier (well defined when the
/// store holds it and identifiers are distinct).
pub open spec fn store_index_of(s: Seq<StoreNode>, id: u64) -> int {
    choose|i: int| 0 <= i < s.len() && (#[trigger] s[i].node.id) == id
}

/// Walk ownership edges upward from position `i`; lands on the position of a
/// top-level node.
pub open spec fn chain_root(s: Seq<StoreNode>, i: int) -> int
    decreases i when store_wf(s) && 0 <= i < s.len() via chain_root_decreases
{
    match s[i].parent {
        None => i,
        Some(p) => {
            let j = choose|j: int| 0 <= j < i && (#[trigger] s[j].node.id) == p;
            chain_root(s, j)
        },
    }
}

#[via_fn]
proof fn chain_root_decreases(s: Seq<StoreNode>, i: int) {
    assert(parent_linked(s, i));
}

/// In a rooted well-formed store every ancestor chain terminates at the
/// synthesized root.
pub proof fn lemma_chain_root_zero(s: Seq<StoreNode>, i: int)
    requires
        store_wf(s),
        store_rooted(s),
        0 <= i < s.len(),
    ensures
        chain_root(s, i) == 0,
    decreases i,
{
    assert(parent_linked(s, i));
    match s[i].parent {
        None => {
            assert(i == 0);
        },
        Some(p) => {
            let j = choose|j: int| 0 <= j < i && (#[trigger] s[j].node.id) == p;
            lemma_chain_root_zero(s, j);
        },
    }
}

/// Appending a node with a fresh identifier under a present parent keeps the
/// store well formed.
pub proof fn lemma_store_push_wf(s: Seq<StoreNode>, sn: StoreNode)
    requires
        store_wf(s),
        !store_contains_id(s, sn.node.id),
        match sn.parent {
            Some(p) => store_contains_id(s, p),
            None => true,
        },
    ensures
        store_wf(s.push(sn)),
{
    let t = s.push(sn);
    assert forall|i: int, j: int| 0 <= i < j < t.len() implies (#[trigger] t[i].node.id) != (
    #[trigger] t[j].node.id) by {
        if j < s.len() {
            assert(t[i] == s[i] && t[j] == s[j]);
        } else {
            assert(t[j] == sn && t[i] == s[i]);
        }
    }
    assert forall|i: int| 0 <= i < t.len() implies #[trigger] parent_linked(t, i) by {
        if i < s.len() {
            assert(parent_linked(s, i));
            match s[i].parent {
                Some(p) => {
                    let j = choose|j: int| 0 <= j < i && (#[trigger] s[j].node.id) == p;
                    assert(t[j] == s[j]);
                    assert(t[i] == s[i]);
                },
                None => {
                    assert(t[i] == s[i]);
                },
            }
        } else {
            assert(t[i] == sn);
            match sn.parent {
                Some(p) => {
                    let j = choose|j: int|
                        0 <= j < s.len() && (#[trigger] s[j].node.id) == p;
                    assert(t[j] == s[j]);
                },
                None => {},
            }
        }
    }
}

/// The scheduler's state: which composition each node identifier is
/// currently running. Later entries supersede earlier ones, so a repeated
/// start replaces the previous composition for that node.
pub open spec fn running_map(s: Seq<(u64, BoneProgram)>) -> Map<u64, BoneProgramV>
    decreases s.len(),
{
    if s.len() == 0 {
        Map::empty()
    } else {
        running_map(s.drop_last()).insert(s.last().0, s.last().1@)
    }
}

/// The library's model of the external node store: the scene nodes, and the
/// motion compositions scheduled against them.
#[derive(Debug)]
pub struct NodeStore {
    pub nodes: Vec<StoreNode>,
    pub running: Vec<(u64, BoneProgram)>,
}

impl NodeStore {
    /// An empty store: no nodes, nothing scheduled.
    pub fn new() -> (s: NodeStore)
        ensures
            s.nodes@ == Seq::<StoreNode>::empty(),
            s.running@ == Seq::<(u64, BoneProgram)>::empty(),
    {
        NodeStore { nodes: Vec::new(), running: Vec::new() }
    }

    /// Insert a node at the store's top level. The identifier must be fresh.
    pub fn insert_root(&mut self, node: Node)
        requires
            !store_contains_id(old(self).nodes@, node.id),
        ensures
            final(self).nodes@ == old(self).nodes@.push(StoreNode { node, parent: None }),
            final(self).running == old(self).running,
    {
        self.nodes.push(StoreNode { node, parent: None });
    }

    /// Attach a node under a store-resident parent: the sole point where
    /// ownership of the node passes to the store.
    pub fn attach_child(&mut self, parent_id: u64, node: Node)
        requires
            store_contains_id(old(self).nodes@, parent_id),
            !store_contains_id(old(self).nodes@, node.id),
        ensures
            final(self).nodes@ == old(self).nodes@.push(StoreNode { node, parent: Some(parent_id) }),
            final(self).running == old(self).running,
    {
        self.nodes.push(StoreNode { node, parent: Some(parent_id) });
    }

    /// Look a node up by identifier.
    pub fn get(&self, id: u64) -> (r: Option<&StoreNode>)
        ensures
            match r {
                Some(sn) => store_contains_id(self.nodes@, id) && sn.node.id == id && exists|
                    i: int,
                |
                    0 <= i < self.nodes@.len() && #[trigger] self.nodes@[i] == *sn,
                None => !store_contains_id(self.nodes@, id),
            },
    {
        let n = self.nodes.len();
        let mut i: usize = 0;
        while i < n
            invariant
                i <= n,
                n == self.nodes@.len(),
                forall|j: int| 0 <= j < i ==> (#[trigger] self.nodes@[j].node.id) != id,
            decreases n - i,
        {
            if self.nodes[i].node.id == id {
                return Some(&self.nodes[i]);
            }
            i = i + 1;
        }
        None
    }

    /// Schedule a composition against a node identifier. A later start for
    /// the same identifier supersedes this one.
    pub fn run_composition(&mut self, id: u64, program: BoneProgram)
        ensures
            final(self).nodes == old(self).nodes,
            final(self).running@ == old(self).running@.push((id, program)),
            running_map(final(self).running@) == running_map(old(self).running@).insert(
                id,
                program@,
            ),
    {
        self.running.push((id, program));
        proof {
            assert(self.running@.drop_last() =~= old(self).running@);
        }
    }

    /// The composition currently scheduled for a node, if any: the latest
    /// start wins.
    pub fn active_composition(&self, id: u64) -> (r: Option<&BoneProgram>)
        ensures
            match r {
                Some(p) => running_map(self.running@).dom().contains(id) && running_map(
                    self.running@,
                )[id] == p@,
                None => !running_map(self.running@).dom().contains(id),
            },
    {
        let ghost full = running_map(self.running@);
        let n = self.running.len();
        let mut i: usize = n;
        proof {
            assert(self.running@.take(n as int) =~= self.running@);
        }
        while i > 0
            invariant
                i <= n,
                n == self.running@.len(),
                full == running_map(self.running@),
                full.dom().contains(id) <==> running_map(
                    self.running@.take(i as int),
                ).dom().contains(id),
                full.dom().contains(id) ==> full[id] == running_map(
                    self.running@.take(i as int),
                )[id],
            decreases i,
        {
            proof {
                assert(self.running@.take(i as int).drop_last() =~= self.running@.take(
                    i as int - 1,
                ));
                assert(self.running@.take(i as int).last() == self.running@[i as int - 1]);
            }
            if self.running[i - 1].0 == id {
                return Some(&self.running[i - 1].1);
            }
            i = i - 1;
        }
        proof {
            assert(self.running@.take(0) =~= Seq::<(u64, BoneProgram)>::empty());
        }
        None
    }
}

/// Where a created node currently lives: staged awaiting its parent, or
/// inserted in the store under its identifier.
#[derive(Debug, Clone, Copy, PartialEq, Eq)]
pub enum Placement {
    Staged(Node),
    Inserted(u64),
}

/// The identifier an entry answers to, staged or inserted: identifiers are
/// assigned at creation and never change.
pub open spec fn place_id(p: Placement) -> u64 {
    match p {
        Placement::Staged(n) => n.id,
        Placement::Inserted(id) => id,
    }
}

/// The name-to-identifier index: one entry per node identity. Positions pair
/// `names` with `places`.
#[derive(Debug)]
pub struct IdentityIndex {
    pub names: Vec<Name>,
    pub places: Vec<Placement>,
}

pub struct IdentityIndexV {
    pub names: Seq<NameV>,
    pub places: Seq<Placement>,
}

impl View for IdentityIndex {
    type V = IdentityIndexV;

    open spec fn view(&self) -> IdentityIndexV {
        IdentityIndexV { names: self.names@.map_values(|n: Name| n@), places: self.places@ }
    }
}

/// One place per identity, identities distinct.
pub open spec fn index_wf(ix: IdentityIndexV) -> bool {
    &&& ix.names.len() == ix.places.len()
    &&& forall|a: int, b: int|
        0 <= a < b < ix.names.len() ==> (#[trigger] ix.names[a]) != (#[trigger] ix.names[b])
}

pub open spec fn index_has(ix: IdentityIndexV, n: NameV) -> bool {
    exists|i: int| 0 <= i < ix.names.len() && (#[trigger] ix.names[i]) == n
}

/// The position of an identity (well defined when present and distinct).
pub open spec fn index_pos(ix: IdentityIndexV, n: NameV) -> int {
    choose|i: int| 0 <= i < ix.names.len() && (#[trigger] ix.names[i]) == n
}

pub open spec fn index_place(ix: IdentityIndexV, n: NameV) -> Placement {
    ix.places[index_pos(ix, n)]
}

/// The identifier an identity resolves to, staged or inserted.
pub open spec fn index_id(ix: IdentityIndexV, n: NameV) -> u64 {
    place_id(index_place(ix, n))
}

impl IdentityIndex {
    /// An empty index.
    pub fn new() -> (ix: IdentityIndex)
        ensures
            ix@.names == Seq::<NameV>::empty(),
            ix@.places == Seq::<Placement>::empty(),
    {
        let ix = IdentityIndex { names: Vec::new(), places: Vec::new() };
        proof {
            assert(ix@.names =~= Seq::<NameV>::empty());
        }
        ix
    }

    /// Record a new identity.
    pub fn push(&mut self, name: Name, place: Placement)
        ensures
            final(self)@.names == old(self)@.names.push(name@),
            final(self)@.places == old(self)@.places.push(place),
    {
        proof {
            assert(self.names@.push(name).map_values(|n: Name| n@) =~= self.names@.map_values(
                |n: Name| n@,
            ).push(name@));
        }
        self.names.push(name);
        self.places.push(place);
    }

    /// The position of an identity, scanning in insertion order.
    pub fn find(&self, name: &Name) -> (r: Option<usize>)
        ensures
            match r {
                Some(i) => i < self@.names.len() && self@.names[i as int] == name@ && index_has(
                    self@,
                    name@,
                ) && (index_wf(self@) ==> index_pos(self@, name@) == i),
                None => !index_has(self@, name@),
            },
    {
        let n = self.names.len();
        let mut i: usize = 0;
        while i < n
            invariant
                i <= n,
                n == self@.names.len(),
                n == self.names@.len(),
                forall|j: int| 0 <= j < i ==> (#[trigger] self@.names[j]) != name@,
            decreases n - i,
        {
            proof {
                assert(self@.names[i as int] == self.names@[i as int]@);
            }
            if name_eq(&self.names[i], name) {
                proof {
                    if index_wf(self@) {
                        let p = index_pos(self@, name@);
                        assert(index_has(self@, name@));
                        assert(0 <= p < self@.names.len() && self@.names[p] == name@);
                        if p != i as int {
                            assert(self@.names[p] != self@.names[i as int]);
                        }
                    }
                }
                return Some(i);
            }
            i = i + 1;
        }
        None
    }

    /// The identifier an identity resolves to, staged or inserted.
    pub fn id_of(&self, name: &Name) -> (r: Option<u64>)
        requires
            self@.names.len() == self@.places.len(),
        ensures
            match r {
                Some(id) => index_has(self@, name@) && (index_wf(self@) ==> id == index_id(
                    self@,
                    name@,
                )),
                None => !index_has(self@, name@),
            },
    {
        match self.find(name) {
            Some(i) => {
                let id = match self.places[i] {
                    Placement::Staged(node) => node.id,
                    Placement::Inserted(id) => id,
                };
                Some(id)
            },
            None => None,
        }
    }
}

} // verus!
