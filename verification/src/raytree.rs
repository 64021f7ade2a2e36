//! The ray arena: a depth-bounded tree of sampled rays rooted at one
//! primary ray, built top-down, read bottom-up, then pruned.
//!
//! Nodes live in a vector indexed by their id; a pruned slot holds
//! `None`.  The well-formedness invariant ties each node to its parent
//! and children and bounds every depth by the arena's maximum.

use crate::ray::Ray;
use vstd::prelude::*;

verus! {

/// A handle to an arena node: the synthetic root above every tree, a
/// rejected request, or a real node.
#[derive(Clone, Copy, Debug, PartialEq, Eq, Structural)]
pub enum NodeId {
    Root,
    Invalid,
    Parent(u32),
}

/// One node of the sample tree.
#[derive(Clone, Debug)]
pub struct RayNode {
    pub id: u32,
    pub parent: NodeId,
    pub child: Vec<u32>,
    pub ray: Ray,
    pub recursion_depth: u32,
}

impl RayNode {
    /// A node with no children yet.
    pub fn new(id: u32, parent: NodeId, ray: &Ray, recursion_depth: u32) -> (n: RayNode)
        ensures
            n.id == id,
            n.parent == parent,
            n.child@.len() == 0,
            n.ray == *ray,
            n.recursion_depth == recursion_depth,
    {
        RayNode { id, parent, child: Vec::new(), ray: *ray, recursion_depth }
    }

    /// Append a child id.
    pub fn add_child(&mut self, child: u32)
        ensures
            final(self).child@ == old(self).child@.push(child),
            final(self).id == old(self).id,
            final(self).parent == old(self).parent,
            final(self).ray == old(self).ray,
            final(self).recursion_depth == old(self).recursion_depth,
    {
        self.child.push(child);
    }
}

/// The slot `i` holds a node.
pub open spec fn live(nodes: Seq<Option<RayNode>>, i: int) -> bool {
    0 <= i < nodes.len() && nodes[i] is Some
}

/// The node in slot `i`.
pub open spec fn node_at(nodes: Seq<Option<RayNode>>, i: int) -> RayNode {
    nodes[i].unwrap()
}

/// The depth of the node in slot `i` (zero for an empty slot).
pub open spec fn depth_of(nodes: Seq<Option<RayNode>>, i: int) -> nat {
    if live(nodes, i) {
        node_at(nodes, i).recursion_depth as nat
    } else {
        0
    }
}

/// Everything the arena maintains of each live slot `i`: the node knows
/// its own id; its depth is bounded; its parent is live with matching
/// depth and lists it as a child; its children are live, one level
/// deeper, and list it as their parent; its child list has no
/// duplicates.
pub open spec fn wf_at(nodes: Seq<Option<RayNode>>, max: u32, i: int) -> bool {
    let n = node_at(nodes, i);
    &&& n.id == i
    &&& n.recursion_depth <= max
    &&& match n.parent {
        NodeId::Root => n.recursion_depth == 0,
        NodeId::Invalid => false,
        NodeId::Parent(p) => live(nodes, p as int) && node_at(nodes, p as int).recursion_depth
            + 1 == n.recursion_depth && node_at(nodes, p as int).child@.contains(i as u32),
    }
    &&& forall|k: int|
        0 <= k < n.child@.len() ==> {
            let c = #[trigger] n.child@[k];
            live(nodes, c as int) && node_at(nodes, c as int).recursion_depth == n.recursion_depth
                + 1 && node_at(nodes, c as int).parent == NodeId::Parent(i as u32)
        }
    &&& forall|k1: int, k2: int|
        0 <= k1 < k2 < n.child@.len() ==> #[trigger] n.child@[k1] != #[trigger] n.child@[k2]
}

/// The arena invariant.
pub open spec fn wf_nodes(nodes: Seq<Option<RayNode>>, max: u32) -> bool {
    forall|i: int| #[trigger] live(nodes, i) ==> wf_at(nodes, max, i)
}

/// `j` lies in the subtree rooted at `root`: following parent pointers
/// upward from `j` reaches `root`.
pub open spec fn in_subtree(nodes: Seq<Option<RayNode>>, root: int, j: int) -> bool
    decreases depth_of(nodes, j),
{
    live(nodes, j) && (j == root || match node_at(nodes, j).parent {
        NodeId::Parent(p) => depth_of(nodes, p as int) < depth_of(nodes, j) && in_subtree(
            nodes,
            root,
            p as int,
        ),
        _ => false,
    })
}

/// The number of live slots.
pub open spec fn count_live(nodes: Seq<Option<RayNode>>) -> nat
    decreases nodes.len(),
{
    if nodes.len() == 0 {
        0
    } else {
        count_live(nodes.drop_last()) + if nodes.last() is Some {
            1nat
        } else {
            0nat
        }
    }
}

/// An arena with no live slot holds zero live nodes.
pub proof fn lemma_count_live_none(nodes: Seq<Option<RayNode>>)
    requires
        forall|j: int| !(#[trigger] live(nodes, j)),
    ensures
        count_live(nodes) == 0,
    decreases nodes.len(),
{
    if nodes.len() > 0 {
        assert(!live(nodes, nodes.len() - 1));
        assert forall|j: int| !(#[trigger] live(nodes.drop_last(), j)) by {
            if live(nodes.drop_last(), j) {
                assert(nodes.drop_last()[j] == nodes[j]);
                assert(live(nodes, j));
            }
        }
        lemma_count_live_none(nodes.drop_last());
    }
}

/// The depth-bounded arena of one primary ray's sample tree.
pub struct RayArena {
    pub nodes: Vec<Option<RayNode>>,
    pub max_recursion_depth: u32,
}

/// The arena invariant, on the arena itself.
pub open spec fn wf_arena(a: RayArena) -> bool {
    wf_nodes(a.nodes@, a.max_recursion_depth) && a.nodes@.len() < 0xFFFFFFFF
}

impl RayArena {
    /// An empty arena with the given depth bound.
    pub fn new(max_recursion_depth: u32) -> (a: RayArena)
        ensures
            a.nodes@.len() == 0,
            a.max_recursion_depth == max_recursion_depth,
            wf_arena(a),
    {
        RayArena { nodes: Vec::new(), max_recursion_depth }
    }

    /// The node behind a handle, if the handle names a live node.
    pub fn get_node(&self, node_id: NodeId) -> (r: Option<&RayNode>)
        ensures
            match node_id {
                NodeId::Parent(id) => match r {
                    Some(n) => live(self.nodes@, id as int) && *n == node_at(
                        self.nodes@,
                        id as int,
                    ),
                    None => !live(self.nodes@, id as int),
                },
                _ => r is None,
            },
    {
        if let NodeId::Parent(id) = node_id {
            if (id as usize) < self.nodes.len() {
                return self.nodes[id as usize].as_ref();
            }
        }
        None
    }

    /// The number of nodes that currently live in the arena.
    pub fn num_nodes(&self) -> (n: usize)
        ensures
            n == count_live(self.nodes@),
    {
        let mut n: usize = 0;
        let mut i: usize = 0;
        while i < self.nodes.len()
            invariant
                0 <= i <= self.nodes@.len(),
                n == count_live(self.nodes@.subrange(0, i as int)),
                n <= i,
            decreases self.nodes@.len() - i,
        {
            proof {
                assert(self.nodes@.subrange(0, i + 1 as int).drop_last() =~= self.nodes@
                    .subrange(0, i as int));
            }
            if self.nodes[i].is_some() {
                n = n + 1;
            }
            i = i + 1;
        }
        proof {
            assert(self.nodes@.subrange(0, self.nodes@.len() as int) =~= self.nodes@);
        }
        n
    }

    /// Create a node under `parent` and link it in, unless the parent
    /// handle is dead, the new node would exceed the depth bound, or the
    /// arena is out of ids: those requests report `Invalid` and leave
    /// the arena unchanged.
    pub fn add_node(&mut self, parent: NodeId, ray: &Ray) -> (r: NodeId)
        requires
            wf_arena(*old(self)),
        ensures
            wf_arena(*final(self)),
            final(self).max_recursion_depth == old(self).max_recursion_depth,
            match parent {
                NodeId::Root => if old(self).nodes@.len() >= 0xFFFFFFFE {
                    r == NodeId::Invalid && final(self).nodes@ == old(self).nodes@
                } else {
                    let id = old(self).nodes@.len() as int;
                    &&& r == NodeId::Parent(id as u32)
                    &&& final(self).nodes@.len() == id + 1
                    &&& live(final(self).nodes@, id)
                    &&& node_at(final(self).nodes@, id).id == id
                    &&& node_at(final(self).nodes@, id).parent == NodeId::Root
                    &&& node_at(final(self).nodes@, id).child@.len() == 0
                    &&& node_at(final(self).nodes@, id).ray == *ray
                    &&& node_at(final(self).nodes@, id).recursion_depth == 0
                    &&& forall|j: int|
                        0 <= j < id ==> final(self).nodes@[j] == #[trigger] old(self).nodes@[j]
                },
                NodeId::Parent(p) => if live(old(self).nodes@, p as int) {
                    if node_at(old(self).nodes@, p as int).recursion_depth + 1 > old(
                        self,
                    ).max_recursion_depth {
                        r == NodeId::Invalid && final(self).nodes@ == old(self).nodes@
                    } else if old(self).nodes@.len() >= 0xFFFFFFFE {
                        r == NodeId::Invalid && final(self).nodes@ == old(self).nodes@
                    } else {
                        let id = old(self).nodes@.len() as int;
                        &&& r == NodeId::Parent(id as u32)
                        &&& final(self).nodes@.len() == id + 1
                        &&& live(final(self).nodes@, id)
                        &&& node_at(final(self).nodes@, id).id == id
                        &&& node_at(final(self).nodes@, id).parent == parent
                        &&& node_at(final(self).nodes@, id).child@.len() == 0
                        &&& node_at(final(self).nodes@, id).ray == *ray
                        &&& node_at(final(self).nodes@, id).recursion_depth == node_at(
                            old(self).nodes@,
                            p as int,
                        ).recursion_depth + 1
                        &&& live(final(self).nodes@, p as int)
                        &&& node_at(final(self).nodes@, p as int).child@ == node_at(
                            old(self).nodes@,
                            p as int,
                        ).child@.push(id as u32)
                        &&& node_at(final(self).nodes@, p as int).id == node_at(
                            old(self).nodes@,
                            p as int,
                        ).id
                        &&& node_at(final(self).nodes@, p as int).parent == node_at(
                            old(self).nodes@,
                            p as int,
                        ).parent
                        &&& node_at(final(self).nodes@, p as int).ray == node_at(
                            old(self).nodes@,
                            p as int,
                        ).ray
                        &&& node_at(final(self).nodes@, p as int).recursion_depth == node_at(
                            old(self).nodes@,
                            p as int,
                        ).recursion_depth
                        &&& forall|j: int|
                            0 <= j < id && j != p ==> final(self).nodes@[j] == #[trigger] old(
                                self,
                            ).nodes@[j]
                    }
                } else {
                    r == NodeId::Invalid && final(self).nodes@ == old(self).nodes@
                },
                NodeId::Invalid => r == NodeId::Invalid && final(self).nodes@ == old(
                    self,
                ).nodes@,
            },
    {
        match parent {
            NodeId::Parent(p) => {
                let pu = p as usize;
                if pu < self.nodes.len() && self.nodes[pu].is_some() {
                    let p_depth = self.nodes[pu].as_ref().unwrap().recursion_depth;
                    proof {
                        assert(live(self.nodes@, pu as int));
                        assert(wf_at(self.nodes@, self.max_recursion_depth, pu as int));
                    }
                    if p_depth >= self.max_recursion_depth {
                        return NodeId::Invalid;
                    }
                    if self.nodes.len() >= 0xFFFFFFFE {
                        return NodeId::Invalid;
                    }
                    let recursion_depth = p_depth + 1;
                    let new_id = self.nodes.len() as u32;
                    self.nodes.push(Some(RayNode::new(new_id, parent, ray, recursion_depth)));
                    let taken = self.nodes[pu].take();
                    if let Some(mut pn) = taken {
                        pn.add_child(new_id);
                        self.nodes[pu] = Some(pn);
                    }
                    proof {
                        lemma_add_node_wf(
                            old(self).nodes@,
                            self.nodes@,
                            self.max_recursion_depth,
                            pu as int,
                            *ray,
                        );
                    }
                    NodeId::Parent(new_id)
                } else {
                    NodeId::Invalid
                }
            },
            NodeId::Root => {
                if self.nodes.len() >= 0xFFFFFFFE {
                    return NodeId::Invalid;
                }
                let new_id = self.nodes.len() as u32;
                self.nodes.push(Some(RayNode::new(new_id, NodeId::Root, ray, 0)));
                proof {
                    lemma_push_root_wf(old(self).nodes@, self.nodes@, self.max_recursion_depth);
                }
                NodeId::Parent(new_id)
            },
            NodeId::Invalid => NodeId::Invalid,
        }
    }
}

/// The leaf ids of the subtree under slot `id`, in depth-first order,
/// cut off (empty) when the fuel runs out before a childless node.
pub open spec fn leaves_of(nodes: Seq<Option<RayNode>>, id: int, fuel: nat) -> Seq<u32>
    decreases fuel, 0nat,
{
    if !live(nodes, id) {
        Seq::empty()
    } else if node_at(nodes, id).child@.len() == 0 {
        seq![id as u32]
    } else if fuel == 0 {
        Seq::empty()
    } else {
        leaves_list(nodes, node_at(nodes, id).child@, (fuel - 1) as nat)
    }
}

/// The leaf ids under each member of `kids`, concatenated in order.
pub open spec fn leaves_list(nodes: Seq<Option<RayNode>>, kids: Seq<u32>, fuel: nat) -> Seq<u32>
    decreases fuel, kids.len() + 1,
{
    if kids.len() == 0 {
        Seq::empty()
    } else {
        leaves_of(nodes, kids[0] as int, fuel) + leaves_list(nodes, kids.drop_first(), fuel)
    }
}

impl RayArena {
    /// The ids of the childless nodes of the subtree under `id`, in
    /// depth-first order.
    pub fn get_last_nodes(&self, id: NodeId) -> (r: Vec<u32>)
        requires
            wf_arena(*self),
        ensures
            r@ == match id {
                NodeId::Parent(n) => leaves_of(
                    self.nodes@,
                    n as int,
                    (self.max_recursion_depth + 1) as nat,
                ),
                _ => Seq::<u32>::empty(),
            },
    {
        match id {
            NodeId::Parent(n) => {
                let fuel = self.max_recursion_depth as u64 + 1;
                self.last_nodes_rec(n, fuel)
            },
            _ => Vec::new(),
        }
    }

    /// Depth-first collection of the childless nodes under `id`, with an
    /// explicit fuel that mirrors the specification.
    fn last_nodes_rec(&self, id: u32, fuel: u64) -> (r: Vec<u32>)
        requires
            wf_arena(*self),
        ensures
            r@ == leaves_of(self.nodes@, id as int, fuel as nat),
        decreases fuel,
    {
        let node = match self.get_node(NodeId::Parent(id)) {
            Some(n) => n,
            None => {
                return Vec::new();
            },
        };
        if node.child.len() == 0 {
            let mut result: Vec<u32> = Vec::new();
            result.push(id);
            proof {
                assert(result@ =~= seq![id]);
            }
            return result;
        }
        if fuel == 0 {
            return Vec::new();
        }
        let ghost kids = node_at(self.nodes@, id as int).child@;
        let ghost inner = (fuel - 1) as nat;
        let mut result: Vec<u32> = Vec::new();
        let mut k: usize = 0;
        proof {
            assert(kids.skip(0) =~= kids);
        }
        while k < node.child.len()
            invariant
                wf_arena(*self),
                live(self.nodes@, id as int),
                node == node_at(self.nodes@, id as int),
                kids == node_at(self.nodes@, id as int).child@,
                inner == (fuel - 1) as nat,
                fuel >= 1,
                0 <= k <= kids.len(),
                result@ + leaves_list(self.nodes@, kids.skip(k as int), inner) == leaves_list(
                    self.nodes@,
                    kids,
                    inner,
                ),
            decreases kids.len() - k,
        {
            let c = node.child[k];
            let mut sub = self.last_nodes_rec(c, fuel - 1);
            proof {
                assert(kids.skip(k as int)[0] == kids[k as int]);
                assert(kids.skip(k as int).drop_first() =~= kids.skip(k as int + 1));
                assert(leaves_list(self.nodes@, kids.skip(k as int), inner) == leaves_of(
                    self.nodes@,
                    c as int,
                    inner,
                ) + leaves_list(self.nodes@, kids.skip(k as int + 1), inner));
                assert((result@ + sub@) + leaves_list(self.nodes@, kids.skip(k as int + 1), inner)
                    =~= result@ + (sub@ + leaves_list(
                    self.nodes@,
                    kids.skip(k as int + 1),
                    inner,
                )));
            }
            result.append(&mut sub);
            k = k + 1;
        }
        proof {
            assert(kids.skip(kids.len() as int) =~= Seq::<u32>::empty());
            assert(result@ + Seq::<u32>::empty() =~= result@);
        }
        result
    }

    /// The first child id of the node in slot `i`, if any.
    fn first_child(&self, i: usize) -> (r: Option<u32>)
        requires
            live(self.nodes@, i as int),
        ensures
            match r {
                Some(c) => node_at(self.nodes@, i as int).child@.len() > 0 && c == node_at(
                    self.nodes@,
                    i as int,
                ).child@[0],
                None => node_at(self.nodes@, i as int).child@.len() == 0,
            },
    {
        match &self.nodes[i] {
            Some(n) => if n.child.len() > 0 {
                Some(n.child[0])
            } else {
                None
            },
            None => None,
        }
    }

    /// Delete a node and its whole subtree, unlinking the node from its
    /// parent's child list; handles that name no live node are ignored.
    pub fn remove_node_with_childs(&mut self, id: NodeId)
        requires
            wf_arena(*old(self)),
        ensures
            wf_arena(*final(self)),
            final(self).max_recursion_depth == old(self).max_recursion_depth,
            final(self).nodes@.len() == old(self).nodes@.len(),
            match id {
                NodeId::Parent(nid) => if live(old(self).nodes@, nid as int) {
                    &&& !live(final(self).nodes@, nid as int)
                    &&& forall|j: int|
                        #[trigger] live(final(self).nodes@, j) ==> live(old(self).nodes@, j)
                            && !in_subtree(old(self).nodes@, nid as int, j)
                    &&& forall|j: int|
                        live(old(self).nodes@, j) && !in_subtree(
                            old(self).nodes@,
                            nid as int,
                            j,
                        ) ==> #[trigger] retained(
                            old(self).nodes@,
                            final(self).nodes@,
                            nid as int,
                            j,
                        )
                } else {
                    final(self).nodes@ == old(self).nodes@
                },
                _ => final(self).nodes@ == old(self).nodes@,
            },
        decreases old(self).max_recursion_depth + 1 - depth_of(
            old(self).nodes@,
            match id {
                NodeId::Parent(nid) => nid as int,
                _ => 0,
            },
        ),
    {
        let nid = match id {
            NodeId::Parent(nid) => nid,
            _ => {
                return ;
            },
        };
        let nu = nid as usize;
        if nu >= self.nodes.len() || self.nodes[nu].is_none() {
            return ;
        }
        proof {
            assert(live(self.nodes@, nu as int));
            assert(wf_at(self.nodes@, self.max_recursion_depth, nu as int));
        }
        let ghost orig = self.nodes@;
        let ghost max = self.max_recursion_depth;
        let mut fc = self.first_child(nu);
        while fc.is_some()
            invariant
                orig == old(self).nodes@,
                max == old(self).max_recursion_depth,
                id == NodeId::Parent(nid),
                wf_nodes(self.nodes@, max),
                self.max_recursion_depth == max,
                self.nodes@.len() == orig.len(),
                orig.len() < 0xFFFFFFFF,
                wf_nodes(orig, max),
                nu == nid,
                live(orig, nu as int),
                live(self.nodes@, nu as int),
                node_at(self.nodes@, nu as int).id == node_at(orig, nu as int).id,
                node_at(self.nodes@, nu as int).parent == node_at(orig, nu as int).parent,
                node_at(self.nodes@, nu as int).ray == node_at(orig, nu as int).ray,
                node_at(self.nodes@, nu as int).recursion_depth == node_at(
                    orig,
                    nu as int,
                ).recursion_depth,
                forall|k: int|
                    0 <= k < node_at(self.nodes@, nu as int).child@.len() ==> node_at(
                        orig,
                        nu as int,
                    ).child@.contains(#[trigger] node_at(self.nodes@, nu as int).child@[k]),
                match fc {
                    Some(c) => node_at(self.nodes@, nu as int).child@.len() > 0 && c == node_at(
                        self.nodes@,
                        nu as int,
                    ).child@[0],
                    None => node_at(self.nodes@, nu as int).child@.len() == 0,
                },
                forall|j: int| #[trigger] live(self.nodes@, j) ==> live(orig, j),
                forall|j: int|
                    #[trigger] live(self.nodes@, j) ==> node_at(self.nodes@, j).parent
                        == node_at(orig, j).parent && node_at(self.nodes@, j).recursion_depth
                        == node_at(orig, j).recursion_depth,
                forall|j: int|
                    live(orig, j) && !in_subtree(orig, nu as int, j)
                        ==> #[trigger] live(self.nodes@, j) && same_node(
                        orig,
                        self.nodes@,
                        j,
                    ),
            decreases node_at(self.nodes@, nu as int).child@.len(),
        {
            let c = fc.unwrap();
            let ghost before = self.nodes@;
            proof {
                assert(wf_at(before, max, nu as int));
                assert(node_at(before, nu as int).child@[0] == c);
                assert(live(before, c as int));
                assert(node_at(before, c as int).parent == NodeId::Parent(nid));
                assert(node_at(orig, nu as int).child@.contains(c));
                assert(live(orig, c as int)) by {
                    let ch = node_at(orig, nu as int).child@;
                    let k = choose|k: int| 0 <= k < ch.len() && ch[k] == c;
                    assert(wf_at(orig, max, nu as int));
                }
                assert(depth_of(before, c as int) == depth_of(orig, nu as int) + 1);
                assert(wf_at(before, max, c as int));
                assert(depth_of(before, c as int) <= max);
            }
            self.remove_node_with_childs(NodeId::Parent(c));
            proof {
                lemma_child_in_subtree(before, max, nu as int, c as int);
                lemma_subtree_lift(orig, before, nu as int, c as int);
                // the node itself survived: it is not in the subtree of its
                // own child
                assert(!in_subtree(before, c as int, nu as int)) by {
                    if in_subtree(before, c as int, nu as int) {
                        lemma_subtree_depth(before, c as int, nu as int);
                    }
                }
                assert(retained(before, self.nodes@, c as int, nu as int));
                assert(live(self.nodes@, nu as int));
                // the child list of the node lost its head
                assert(node_at(before, nu as int).parent == node_at(orig, nu as int).parent);
                assert(node_at(self.nodes@, nu as int).child@ == remove_first(
                    node_at(before, nu as int).child@,
                    c,
                ));
                assert(remove_first(node_at(before, nu as int).child@, c) == node_at(
                    before,
                    nu as int,
                ).child@.drop_first());
                // retention of everything outside the subtree of the root
                assert forall|j: int|
                    live(orig, j) && !in_subtree(orig, nu as int, j) implies #[trigger] live(
                    self.nodes@,
                    j,
                ) && same_node(orig, self.nodes@, j) by {
                    assert(live(orig, j));
                    assert(!in_subtree(orig, nu as int, j));
                    assert(live(before, j));
                    assert(same_node(orig, before, j));
                    if in_subtree(before, c as int, j) {
                        lemma_subtree_lift(orig, before, c as int, j);
                        lemma_subtree_trans(orig, nu as int, c as int, j);
                        assert(false);
                    }
                    assert(j != nu as int) by {
                        assert(in_subtree(orig, nu as int, nu as int));
                    }
                    assert(node_at(before, c as int).parent != NodeId::Parent(j as u32));
                    assert(retained(before, self.nodes@, c as int, j));
                    assert(live(self.nodes@, j));
                    assert(node_at(self.nodes@, j).id == node_at(before, j).id);
                    assert(node_at(self.nodes@, j).parent == node_at(before, j).parent);
                    assert(node_at(self.nodes@, j).ray == node_at(before, j).ray);
                    assert(node_at(self.nodes@, j).child@ == node_at(before, j).child@);
                    assert(same_node(orig, self.nodes@, j));
                }
                // every survivor keeps its parent handle and depth
                assert forall|j: int| #[trigger] live(self.nodes@, j) implies node_at(
                    self.nodes@,
                    j,
                ).parent == node_at(orig, j).parent && node_at(self.nodes@, j).recursion_depth
                    == node_at(orig, j).recursion_depth by {
                    assert(live(before, j) && !in_subtree(before, c as int, j));
                    assert(retained(before, self.nodes@, c as int, j));
                }
            }
            fc = self.first_child(nu);
        }
        // the node has no children left; unlink it from its parent
        let parent = {
            let n = self.nodes[nu].as_ref().unwrap();
            n.parent
        };
        let ghost after_loop = self.nodes@;
        proof {
            assert(wf_at(after_loop, max, nu as int));
        }
        if let NodeId::Parent(p) = parent {
            let pu = p as usize;
            proof {
                assert(live(after_loop, pu as int));
                assert(node_at(after_loop, pu as int).child@.contains(nid));
            }
            let taken = self.nodes[pu].take();
            let mut pn = taken.unwrap();
            let ghost plist = pn.child@;
            let child_len = pn.child.len();
            let mut idx: usize = 0;
            proof {
                assert(plist.contains(nid));
                assert(plist.len() > 0) by {
                    let k = choose|k: int| 0 <= k < plist.len() && plist[k] == nid;
                }
            }
            while idx < child_len && pn.child[idx] != nid
                invariant
                    pn.child@ == plist,
                    child_len == plist.len(),
                    plist.contains(nid),
                    0 <= idx <= plist.len(),
                    forall|m: int| 0 <= m < idx ==> plist[m] != nid,
                decreases plist.len() - idx,
            {
                idx = idx + 1;
            }
            proof {
                assert(idx < plist.len()) by {
                    let k = choose|k: int| 0 <= k < plist.len() && plist[k] == nid;
                    assert(k >= idx);
                }
                lemma_remove_first_at(plist, nid, idx as int);
            }
            pn.child.remove(idx);
            self.nodes[pu] = Some(pn);
        }
        self.nodes[nu] = None;
        proof {
            lemma_remove_finish(orig, after_loop, self.nodes@, max, nu as int);
        }
    }
}

/// A node strictly below `root` in the tree has a strictly larger depth.
pub proof fn lemma_subtree_depth(nodes: Seq<Option<RayNode>>, root: int, j: int)
    requires
        in_subtree(nodes, root, j),
    ensures
        depth_of(nodes, j) >= depth_of(nodes, root),
    decreases depth_of(nodes, j),
{
    if j != root {
        match node_at(nodes, j).parent {
            NodeId::Parent(p) => {
                lemma_subtree_depth(nodes, root, p as int);
            },
            _ => {},
        }
    }
}

/// The final accounting of a subtree removal: from the state after the
/// child loop (the node lives, childless, everything outside its subtree
/// intact) to the state after the unlink, the arena is well formed again
/// and exactly the subtree is gone.
proof fn lemma_remove_finish(
    orig: Seq<Option<RayNode>>,
    mid: Seq<Option<RayNode>>,
    fin: Seq<Option<RayNode>>,
    max: u32,
    nid: int,
)
    requires
        orig.len() < 0xFFFFFFFF,
        wf_nodes(orig, max),
        wf_nodes(mid, max),
        orig.len() == mid.len(),
        mid.len() == fin.len(),
        live(orig, nid),
        live(mid, nid),
        node_at(mid, nid).parent == node_at(orig, nid).parent,
        node_at(mid, nid).child@.len() == 0,
        forall|j: int| #[trigger] live(mid, j) ==> live(orig, j),
        forall|j: int|
            #[trigger] live(mid, j) ==> node_at(mid, j).parent == node_at(orig, j).parent
                && node_at(mid, j).recursion_depth == node_at(orig, j).recursion_depth,
        forall|j: int|
            live(orig, j) && !in_subtree(orig, nid, j) ==> #[trigger] live(mid, j) && same_node(
                orig,
                mid,
                j,
            ),
        !live(fin, nid),
        forall|j: int|
            0 <= j < fin.len() && j != nid && node_at(orig, nid).parent != NodeId::Parent(
                j as u32,
            ) ==> #[trigger] fin[j] == mid[j],
        match node_at(orig, nid).parent {
            NodeId::Parent(p) => p as int == nid || (live(fin, p as int) == live(mid, p as int)
                && (live(fin, p as int) ==> node_at(fin, p as int).id == node_at(
                mid,
                p as int,
            ).id && node_at(fin, p as int).parent == node_at(mid, p as int).parent && node_at(
                fin,
                p as int,
            ).ray == node_at(mid, p as int).ray && node_at(fin, p as int).recursion_depth
                == node_at(mid, p as int).recursion_depth && node_at(fin, p as int).child@
                == remove_first(node_at(mid, p as int).child@, nid as u32))),
            _ => true,
        },
    ensures
        wf_nodes(fin, max),
        forall|j: int| #[trigger] live(fin, j) ==> live(orig, j) && !in_subtree(orig, nid, j),
        forall|j: int|
            live(orig, j) && !in_subtree(orig, nid, j) ==> #[trigger] retained(orig, fin, nid, j),
{
    // the parent of the removed node stands outside the removed subtree
    let par = node_at(orig, nid).parent;
    assert(wf_at(orig, max, nid));
    match par {
        NodeId::Parent(p) => {
            assert(!in_subtree(orig, nid, p as int)) by {
                if in_subtree(orig, nid, p as int) {
                    lemma_subtree_depth(orig, nid, p as int);
                }
            }
            assert(live(mid, p as int) && same_node(orig, mid, p as int));
            assert(wf_at(mid, max, p as int));
            lemma_remove_first_props(node_at(mid, p as int).child@, nid as u32);
        },
        _ => {},
    }
    // well-formedness of the final state
    assert forall|i: int| #[trigger] live(fin, i) implies wf_at(fin, max, i) by {
        assert(i != nid);
        assert(live(mid, i));
        assert(wf_at(mid, max, i));
        let n_mid = node_at(mid, i);
        let n_fin = node_at(fin, i);
        assert(n_fin.id == n_mid.id && n_fin.parent == n_mid.parent && n_fin.recursion_depth
            == n_mid.recursion_depth);
        let is_par = par == NodeId::Parent(i as u32);
        if is_par {
            assert(n_fin.child@ == remove_first(n_mid.child@, nid as u32));
        } else {
            assert(fin[i] == mid[i]);
        }
        // the parent clause
        match n_mid.parent {
            NodeId::Root => {},
            NodeId::Invalid => {
                assert(false);
            },
            NodeId::Parent(q) => {
                assert(q as int != nid) by {
                    if q as int == nid {
                        assert(node_at(mid, nid).child@.contains(i as u32));
                    }
                }
                assert(live(fin, q as int));
                if par == NodeId::Parent(q) && q as int != i {
                    assert(node_at(fin, q as int).child@ == remove_first(
                        node_at(mid, q as int).child@,
                        nid as u32,
                    ));
                    assert(node_at(fin, q as int).child@.contains(i as u32));
                } else if q as int == i {
                    // a node cannot be its own parent: depths differ
                    assert(node_at(mid, q as int).recursion_depth + 1 == n_mid.recursion_depth);
                    assert(false);
                } else {
                    assert(fin[q as int] == mid[q as int]);
                }
            },
        }
        // the child clauses
        assert forall|k: int| 0 <= k < n_fin.child@.len() implies {
            let c = #[trigger] n_fin.child@[k];
            live(fin, c as int) && node_at(fin, c as int).recursion_depth == n_fin.recursion_depth
                + 1 && node_at(fin, c as int).parent == NodeId::Parent(i as u32)
        } by {
            let c = n_fin.child@[k];
            if is_par {
                assert(n_mid.child@.contains(c) && c != nid as u32);
                let m = choose|m: int|
                    0 <= m < n_mid.child@.len() && n_mid.child@[m] == c;
            } else {
                assert(n_mid.child@[k] == c);
                assert(c as int != nid) by {
                    if c as int == nid {
                        assert(node_at(mid, nid).parent == NodeId::Parent(i as u32));
                    }
                }
            }
            assert(live(mid, c as int) && c as int != nid);
            assert(live(fin, c as int));
        }
        if is_par {
            assert forall|k1: int, k2: int|
                0 <= k1 < k2 < n_fin.child@.len() implies #[trigger] n_fin.child@[k1]
                != #[trigger] n_fin.child@[k2] by {}
        }
    }
    // every survivor was in the intermediate state, with its core fields
    assert forall|j: int| #[trigger] live(fin, j) implies live(mid, j) && node_at(
        fin,
        j,
    ).parent == node_at(mid, j).parent && node_at(fin, j).recursion_depth == node_at(
        mid,
        j,
    ).recursion_depth by {
        assert(j != nid);
        if par == NodeId::Parent(j as u32) {
            match par {
                NodeId::Parent(p) => {
                    assert(p as int != nid);
                    assert(p as int == j);
                },
                _ => {},
            }
        } else {
            assert(fin[j] == mid[j]);
        }
    }
    // only nodes outside the subtree survive
    assert(preserved_core(orig, fin));
    assert forall|j: int| #[trigger] live(fin, j) implies live(orig, j) && !in_subtree(
        orig,
        nid,
        j,
    ) by {
        if in_subtree(orig, nid, j) {
            lemma_subtree_all_dead(orig, fin, max, nid, j);
        }
    }
    // and every node outside the subtree survives with the stated fields
    assert forall|j: int| live(orig, j) && !in_subtree(orig, nid, j) implies #[trigger] retained(
        orig,
        fin,
        nid,
        j,
    ) by {
        assert(j != nid) by {
            assert(in_subtree(orig, nid, nid));
        }
        assert(live(orig, j));
        assert(!in_subtree(orig, nid, j));
        assert(live(mid, j));
        assert(same_node(orig, mid, j));
        if par == NodeId::Parent(j as u32) {
            match par {
                NodeId::Parent(p) => {
                    assert(p as int != nid);
                    assert(p as int == j);
                },
                _ => {},
            }
            assert(live(fin, j));
            assert(node_at(fin, j).child@ == remove_first(node_at(mid, j).child@, nid as u32));
        } else {
            assert(fin[j] == mid[j]);
        }
    }
}

/// The elements of a duplicate-free sequence after removing the first
/// occurrence of `x`: everything but `x`, still duplicate-free.
proof fn lemma_remove_first_props(s: Seq<u32>, x: u32)
    requires
        s.contains(x),
        forall|k1: int, k2: int| 0 <= k1 < k2 < s.len() ==> #[trigger] s[k1] != #[trigger] s[k2],
    ensures
        remove_first(s, x).len() == s.len() - 1,
        forall|k: int|
            0 <= k < remove_first(s, x).len() ==> s.contains(#[trigger] remove_first(s, x)[k])
                && remove_first(s, x)[k] != x,
        forall|y: u32|
            s.contains(y) && y != x ==> #[trigger] remove_first(s, x).contains(y),
        forall|k1: int, k2: int|
            0 <= k1 < k2 < remove_first(s, x).len() ==> #[trigger] remove_first(s, x)[k1]
                != #[trigger] remove_first(s, x)[k2],
{
    let i = choose|i: int| 0 <= i < s.len() && s[i] == x;
    assert(forall|m: int| 0 <= m < s.len() && m != i ==> s[m] != x);
    lemma_remove_first_at(s, x, i);
    s.remove_ensures(i);
    let r = remove_first(s, x);
    assert(r =~= s.remove(i));
    assert forall|k: int| 0 <= k < r.len() implies s.contains(#[trigger] r[k]) && r[k] != x by {
        if k < i {
            assert(r[k] == s[k]);
        } else {
            assert(r[k] == s[k + 1]);
        }
    }
    assert forall|y: u32| s.contains(y) && y != x implies #[trigger] r.contains(y) by {
        let m = choose|m: int| 0 <= m < s.len() && s[m] == y;
        if m < i {
            assert(r[m] == y);
        } else {
            assert(m > i);
            assert(r[m - 1] == s[m]);
        }
    }
    assert forall|k1: int, k2: int| 0 <= k1 < k2 < r.len() implies #[trigger] r[k1]
        != #[trigger] r[k2] by {
        let m1: int = if k1 < i {
            k1
        } else {
            k1 + 1
        };
        let m2: int = if k2 < i {
            k2
        } else {
            k2 + 1
        };
        assert(r[k1] == s[m1] && r[k2] == s[m2]);
    }
}

/// The sequence with the first occurrence of `x` removed.
pub open spec fn remove_first(s: Seq<u32>, x: u32) -> Seq<u32>
    decreases s.len(),
{
    if s.len() == 0 {
        s
    } else if s[0] == x {
        s.drop_first()
    } else {
        seq![s[0]] + remove_first(s.drop_first(), x)
    }
}

/// After removing the subtree under `nid`, the survivor `j` kept every
/// field; only the parent of `nid` lost `nid` from its child list.
pub open spec fn retained(
    orig: Seq<Option<RayNode>>,
    fin: Seq<Option<RayNode>>,
    nid: int,
    j: int,
) -> bool {
    &&& live(fin, j)
    &&& node_at(fin, j).id == node_at(orig, j).id
    &&& node_at(fin, j).parent == node_at(orig, j).parent
    &&& node_at(fin, j).ray == node_at(orig, j).ray
    &&& node_at(fin, j).recursion_depth == node_at(orig, j).recursion_depth
    &&& node_at(fin, j).child@ == (if node_at(orig, nid).parent == NodeId::Parent(j as u32) {
        remove_first(node_at(orig, j).child@, nid as u32)
    } else {
        node_at(orig, j).child@
    })
}

/// The nodes in slot `i` of both states agree on every field (their
/// child vectors agree as sequences).
pub open spec fn same_node(n1: Seq<Option<RayNode>>, n2: Seq<Option<RayNode>>, i: int) -> bool {
    &&& node_at(n2, i).id == node_at(n1, i).id
    &&& node_at(n2, i).parent == node_at(n1, i).parent
    &&& node_at(n2, i).ray == node_at(n1, i).ray
    &&& node_at(n2, i).recursion_depth == node_at(n1, i).recursion_depth
    &&& node_at(n2, i).child@ == node_at(n1, i).child@
}

/// Every node of `n2` was already in `n1`, with the same parent handle
/// and depth (its child list may differ).
pub open spec fn preserved_core(n1: Seq<Option<RayNode>>, n2: Seq<Option<RayNode>>) -> bool {
    &&& n2.len() == n1.len()
    &&& forall|j: int|
        #[trigger] live(n2, j) ==> live(n1, j) && node_at(n2, j).parent == node_at(n1, j).parent
            && node_at(n2, j).recursion_depth == node_at(n1, j).recursion_depth
}

/// Ancestor chains survive the passage to a smaller state.
proof fn lemma_subtree_lift(
    n1: Seq<Option<RayNode>>,
    n2: Seq<Option<RayNode>>,
    root: int,
    j: int,
)
    requires
        preserved_core(n1, n2),
        in_subtree(n2, root, j),
    ensures
        in_subtree(n1, root, j),
    decreases depth_of(n2, j),
{
    if j != root {
        match node_at(n2, j).parent {
            NodeId::Parent(p) => {
                lemma_subtree_lift(n1, n2, root, p as int);
            },
            _ => {},
        }
    }
}

/// Ancestor chains descend to a smaller, well-formed state whose nodes
/// they run through.
proof fn lemma_subtree_lower(
    n1: Seq<Option<RayNode>>,
    n2: Seq<Option<RayNode>>,
    max: u32,
    root: int,
    j: int,
)
    requires
        preserved_core(n1, n2),
        wf_nodes(n2, max),
        live(n2, j),
        in_subtree(n1, root, j),
    ensures
        in_subtree(n2, root, j),
    decreases depth_of(n1, j),
{
    if j != root {
        assert(wf_at(n2, max, j));
        match node_at(n1, j).parent {
            NodeId::Parent(p) => {
                assert(live(n2, p as int));
                lemma_subtree_lower(n1, n2, max, root, p as int);
            },
            _ => {},
        }
    }
}

/// Subtree membership composes along the tree.
pub proof fn lemma_subtree_trans(nodes: Seq<Option<RayNode>>, root: int, mid: int, j: int)
    requires
        in_subtree(nodes, mid, j),
        in_subtree(nodes, root, mid),
    ensures
        in_subtree(nodes, root, j),
    decreases depth_of(nodes, j),
{
    if j != mid {
        match node_at(nodes, j).parent {
            NodeId::Parent(p) => {
                lemma_subtree_trans(nodes, root, mid, p as int);
            },
            _ => {},
        }
    }
}

/// A live child of a live node lies in that node's subtree.
pub proof fn lemma_child_in_subtree(nodes: Seq<Option<RayNode>>, max: u32, p: int, c: int)
    requires
        wf_nodes(nodes, max),
        live(nodes, c),
        node_at(nodes, c).parent == NodeId::Parent(p as u32),
        0 <= p <= 0xFFFFFFFF,
    ensures
        in_subtree(nodes, p, c),
{
    assert(wf_at(nodes, max, c));
    if c != p {
        assert(live(nodes, p));
        assert(depth_of(nodes, p) < depth_of(nodes, c));
        assert(in_subtree(nodes, p, p));
    }
}

/// Once the root of a subtree is gone from a well-formed smaller state
/// whose surviving nodes kept their parents, the whole subtree is gone.
proof fn lemma_subtree_all_dead(
    n1: Seq<Option<RayNode>>,
    n2: Seq<Option<RayNode>>,
    max: u32,
    nid: int,
    j: int,
)
    requires
        preserved_core(n1, n2),
        wf_nodes(n2, max),
        !live(n2, nid),
        in_subtree(n1, nid, j),
    ensures
        !live(n2, j),
    decreases depth_of(n1, j),
{
    if j != nid {
        match node_at(n1, j).parent {
            NodeId::Parent(p) => {
                lemma_subtree_all_dead(n1, n2, max, nid, p as int);
                if live(n2, j) {
                    assert(wf_at(n2, max, j));
                    assert(live(n2, p as int));
                }
            },
            _ => {},
        }
    }
}

/// `remove_first` removes exactly the first occurrence.
proof fn lemma_remove_first_at(s: Seq<u32>, x: u32, i: int)
    requires
        0 <= i < s.len(),
        s[i] == x,
        forall|m: int| 0 <= m < i ==> s[m] != x,
    ensures
        remove_first(s, x) =~= s.remove(i),
    decreases i,
{
    if i == 0 {
        assert(remove_first(s, x) == s.drop_first());
        assert(s.drop_first() =~= s.remove(0));
    } else {
        assert(s[0] != x);
        lemma_remove_first_at(s.drop_first(), x, i - 1);
        assert(remove_first(s, x) == seq![s[0]] + remove_first(s.drop_first(), x));
        assert(seq![s[0]] + s.drop_first().remove(i - 1) =~= s.remove(i));
    }
}

/// Pushing a fresh root node keeps the arena well formed.
proof fn lemma_push_root_wf(old_nodes: Seq<Option<RayNode>>, new_nodes: Seq<Option<RayNode>>, max: u32)
    requires
        wf_nodes(old_nodes, max),
        new_nodes.len() == old_nodes.len() + 1,
        forall|j: int| 0 <= j < old_nodes.len() ==> new_nodes[j] == #[trigger] old_nodes[j],
        live(new_nodes, old_nodes.len() as int),
        node_at(new_nodes, old_nodes.len() as int).id == old_nodes.len(),
        node_at(new_nodes, old_nodes.len() as int).parent == NodeId::Root,
        node_at(new_nodes, old_nodes.len() as int).child@.len() == 0,
        node_at(new_nodes, old_nodes.len() as int).recursion_depth == 0,
    ensures
        wf_nodes(new_nodes, max),
{
    let id = old_nodes.len() as int;
    assert forall|i: int| #[trigger] live(new_nodes, i) implies wf_at(new_nodes, max, i) by {
        if i < id {
            assert(live(old_nodes, i));
            assert(wf_at(old_nodes, max, i));
            let n = node_at(old_nodes, i);
            assert forall|k: int| 0 <= k < n.child@.len() implies {
                let c = #[trigger] n.child@[k];
                live(new_nodes, c as int) && node_at(new_nodes, c as int).recursion_depth == n
                    .recursion_depth + 1 && node_at(new_nodes, c as int).parent
                    == NodeId::Parent(i as u32)
            } by {
                assert(live(old_nodes, n.child@[k] as int));
            }
        }
    }
}

/// Pushing a fresh child node and linking it into its live parent keeps
/// the arena well formed.
proof fn lemma_add_node_wf(
    old_nodes: Seq<Option<RayNode>>,
    new_nodes: Seq<Option<RayNode>>,
    max: u32,
    p: int,
    ray: Ray,
)
    requires
        wf_nodes(old_nodes, max),
        live(old_nodes, p),
        node_at(old_nodes, p).recursion_depth + 1 <= max,
        new_nodes.len() == old_nodes.len() + 1,
        forall|j: int|
            0 <= j < old_nodes.len() && j != p ==> new_nodes[j] == #[trigger] old_nodes[j],
        live(new_nodes, old_nodes.len() as int),
        node_at(new_nodes, old_nodes.len() as int).id == old_nodes.len(),
        node_at(new_nodes, old_nodes.len() as int).parent == NodeId::Parent(p as u32),
        node_at(new_nodes, old_nodes.len() as int).child@.len() == 0,
        node_at(new_nodes, old_nodes.len() as int).recursion_depth == node_at(
            old_nodes,
            p,
        ).recursion_depth + 1,
        live(new_nodes, p),
        node_at(new_nodes, p).child@ == node_at(old_nodes, p).child@.push(
            old_nodes.len() as u32,
        ),
        node_at(new_nodes, p).id == node_at(old_nodes, p).id,
        node_at(new_nodes, p).parent == node_at(old_nodes, p).parent,
        node_at(new_nodes, p).recursion_depth == node_at(old_nodes, p).recursion_depth,
    ensures
        wf_nodes(new_nodes, max),
{
    let id = old_nodes.len() as int;
    assert(wf_at(old_nodes, max, p));
    assert forall|i: int| #[trigger] live(new_nodes, i) implies wf_at(new_nodes, max, i) by {
        if i == id {
            assert(live(new_nodes, p));
            assert(node_at(new_nodes, p).child@.contains(id as u32)) by {
                assert(node_at(new_nodes, p).child@.last() == id as u32);
            }
        } else if i == p {
            let n = node_at(new_nodes, p);
            let n0 = node_at(old_nodes, p);
            assert forall|k: int| 0 <= k < n.child@.len() implies {
                let c = #[trigger] n.child@[k];
                live(new_nodes, c as int) && node_at(new_nodes, c as int).recursion_depth == n
                    .recursion_depth + 1 && node_at(new_nodes, c as int).parent
                    == NodeId::Parent(p as u32)
            } by {
                if k < n0.child@.len() {
                    assert(n.child@[k] == n0.child@[k]);
                    assert(live(old_nodes, n0.child@[k] as int));
                    assert(n0.child@[k] != id);
                } else {
                    assert(n.child@[k] == id as u32);
                }
            }
            assert forall|k1: int, k2: int| 0 <= k1 < k2 < n.child@.len() implies #[trigger] n
                .child@[k1] != #[trigger] n.child@[k2] by {
                if k2 < n0.child@.len() {
                    assert(n.child@[k1] == n0.child@[k1] && n.child@[k2] == n0.child@[k2]);
                } else {
                    assert(n.child@[k2] == id as u32);
                    assert(n.child@[k1] == n0.child@[k1]);
                    assert(live(old_nodes, n0.child@[k1] as int));
                }
            }
            match n.parent {
                NodeId::Root => {
                },
                NodeId::Invalid => {
                    assert(false);
                },
                NodeId::Parent(q) => {
                    assert(live(old_nodes, q as int));
                    assert(q != id);
                    assert(node_at(old_nodes, q as int).child@.contains(p as u32));
                },
            }
        } else {
            assert(live(old_nodes, i));
            assert(wf_at(old_nodes, max, i));
            let n = node_at(old_nodes, i);
            assert forall|k: int| 0 <= k < n.child@.len() implies {
                let c = #[trigger] n.child@[k];
                live(new_nodes, c as int) && node_at(new_nodes, c as int).recursion_depth == n
                    .recursion_depth + 1 && node_at(new_nodes, c as int).parent
                    == NodeId::Parent(i as u32)
            } by {
                let c = n.child@[k];
                assert(live(old_nodes, c as int));
                if c as int == p {
                    assert(node_at(old_nodes, p).parent == NodeId::Parent(i as u32));
                }
            }
            match n.parent {
                NodeId::Root => {
                },
                NodeId::Invalid => {
                    assert(false);
                },
                NodeId::Parent(q) => {
                    assert(live(old_nodes, q as int));
                    if q as int == p {
                        assert(node_at(old_nodes, p).child@.contains(i as u32));
                        assert(node_at(new_nodes, p).child@.contains(i as u32)) by {
                            let ch0 = node_at(old_nodes, p).child@;
                            let k = choose|k: int| 0 <= k < ch0.len() && ch0[k] == i as u32;
                            assert(node_at(new_nodes, p).child@[k] == i as u32);
                        }
                    }
                },
            }
        }
    }
}

} // verus!
