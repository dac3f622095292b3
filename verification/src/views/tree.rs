//! The tree view: a parent/root convention over an existing graph's storage.
use vstd::prelude::*;
use crate::graph::{
    lemma_node_same_nbrs, lemma_node_same_trans, node_same, EdgeData, EdgeHandle, Graph, Handle,
    MSize, VertexHandle, Vertices,
};

verus! {

/// Slot value marking "no parent" in a tree node's parent slot.
pub const NO_PARENT: MSize = usize::MAX;

/// A layer over a graph's storage that keeps adjacency slot 0 of every node
/// as a back-reference to its tree root and slot 1 as a back-reference to
/// its parent; children occupy the remaining occupied slots.
pub struct TreeView<T> {
    pub nodes: EdgeData,
    pub values: Vertices<T>,
}

impl<T> TreeView<T> {
    /// Graph well-formedness carried over: node `i`'s header names vertex `i`.
    pub open spec fn wf(self) -> bool {
        &&& self.nodes.wf()
        &&& self.nodes.recs().len() == self.values.vals().len()
        &&& forall|i: int|
            0 <= i < self.nodes.recs().len() ==> self.nodes.node_vertex(
                #[trigger] self.nodes.recs()[i],
            ) == i
    }

    pub fn new(edges: EdgeData, vertices: Vertices<T>) -> (r: Self)
        ensures
            r.nodes == edges,
            r.values == vertices,
    {
        TreeView { nodes: edges, values: vertices }
    }

    /// Pushes a payload and appends its record with the default reserve.
    fn create_vertex(&mut self, val: T) -> (r: Handle)
        requires
            old(self).wf(),
            old(self).nodes.buf().len() + 4 + old(self).nodes.base_reserve() <= usize::MAX,
        ensures
            final(self).wf(),
            r.vertex_handle.0 == old(self).values.vals().len(),
            r.edge_handle.0 == old(self).nodes.buf().len(),
            final(self).nodes.valid(r.edge_handle),
            final(self).values.vals() == old(self).values.vals().push(val),
            final(self).nodes.recs() == old(self).nodes.recs().push(r.edge_handle.0),
            final(self).nodes.buf().len() == old(self).nodes.buf().len() + 4 + old(
                self,
            ).nodes.base_reserve(),
            final(self).nodes.node_len(r.edge_handle.0) == 0,
            final(self).nodes.node_reserve(r.edge_handle.0) == old(self).nodes.base_reserve(),
            final(self).nodes.node_visited(r.edge_handle.0) == 0,
            final(self).nodes.node_vertex(r.edge_handle.0) == r.vertex_handle.0,
            final(self).nodes.nbrs(r.edge_handle.0) == Seq::<MSize>::empty(),
            forall|p: MSize| old(self).nodes.valid_off(p) ==> final(self).nodes.valid_off(p),
            forall|p: MSize|
                old(self).nodes.valid_off(p) ==> #[trigger] node_same(
                    old(self).nodes,
                    final(self).nodes,
                    p,
                ),
            final(self).nodes.base_reserve() == old(self).nodes.base_reserve(),
            final(self).nodes.visited_gen() == old(self).nodes.visited_gen(),
    {
        self.values.push(val);
        let vertex_handle = VertexHandle(self.values.len() - 1);
        let edge_handle = self.nodes.create_edges_entry(0, vertex_handle);
        proof {
            let pre = *old(self);
            assert forall|i: int|
                0 <= i < self.nodes.recs().len() implies self.nodes.node_vertex(
                #[trigger] self.nodes.recs()[i],
            ) == i by {
                if i < pre.nodes.recs().len() {
                    let p = pre.nodes.recs()[i];
                    assert(pre.nodes.recs().contains(p));
                    assert(node_same(pre.nodes, self.nodes, p));
                } else {
                    assert(self.nodes.recs()[i] == edge_handle.0);
                }
            };
        }
        Handle { edge_handle, vertex_handle }
    }

    /// Creates a fresh tree root: a node whose root slot names itself and
    /// whose parent slot holds the `NO_PARENT` sentinel.
    pub fn create_node(&mut self, val: T) -> (r: Handle)
        requires
            old(self).wf(),
            old(self).nodes.base_reserve() >= 2,
            old(self).nodes.buf().len() + 4 + old(self).nodes.base_reserve() <= usize::MAX,
        ensures
            final(self).wf(),
            r.vertex_handle.0 == old(self).values.vals().len(),
            r.edge_handle.0 == old(self).nodes.buf().len(),
            final(self).nodes.valid(r.edge_handle),
            final(self).values.vals() == old(self).values.vals().push(val),
            final(self).nodes.recs() == old(self).nodes.recs().push(r.edge_handle.0),
            final(self).nodes.buf().len() == old(self).nodes.buf().len() + 4 + old(
                self,
            ).nodes.base_reserve(),
            final(self).nodes.node_len(r.edge_handle.0) == 2,
            final(self).nodes.node_reserve(r.edge_handle.0) == old(self).nodes.base_reserve(),
            final(self).nodes.node_vertex(r.edge_handle.0) == r.vertex_handle.0,
            final(self).nodes.node_slot(r.edge_handle.0, 0) == r.edge_handle.0,
            final(self).nodes.node_slot(r.edge_handle.0, 1) == NO_PARENT,
            final(self).nodes.nbrs(r.edge_handle.0) == seq![r.edge_handle.0, NO_PARENT],
            forall|p: MSize| old(self).nodes.valid_off(p) ==> final(self).nodes.valid_off(p),
            forall|p: MSize|
                old(self).nodes.valid_off(p) ==> #[trigger] node_same(
                    old(self).nodes,
                    final(self).nodes,
                    p,
                ),
            final(self).nodes.base_reserve() == old(self).nodes.base_reserve(),
            final(self).nodes.visited_gen() == old(self).nodes.visited_gen(),
            forest(old(self).nodes) ==> forest(final(self).nodes),
    {
        let vertex = self.create_vertex(val);
        let ghost s1 = *self;
        self.nodes.connect(vertex.edge_handle, vertex.edge_handle);
        let ghost s2 = *self;
        self.nodes.connect(vertex.edge_handle, EdgeHandle(NO_PARENT));
        proof {
            let pre = *old(self);
            let o = vertex.edge_handle.0;
            assert(self.nodes.nbrs(o) =~= seq![o, NO_PARENT]);
            assert forall|p: MSize| pre.nodes.valid_off(p) implies #[trigger] node_same(
                pre.nodes,
                self.nodes,
                p,
            ) by {
                assert(node_same(pre.nodes, s1.nodes, p));
                assert(node_same(s1.nodes, s2.nodes, p));
                assert(node_same(s2.nodes, self.nodes, p));
                lemma_node_same_trans(pre.nodes, s1.nodes, s2.nodes, p);
                lemma_node_same_trans(pre.nodes, s2.nodes, self.nodes, p);
            };
            assert forall|i: int|
                0 <= i < self.nodes.recs().len() implies self.nodes.node_vertex(
                #[trigger] self.nodes.recs()[i],
            ) == i by {
                let p = s1.nodes.recs()[i];
                assert(s1.nodes.recs().contains(p));
                if p != o {
                    assert(node_same(s1.nodes, s2.nodes, p));
                    assert(node_same(s2.nodes, self.nodes, p));
                }
            };
            if forest(pre.nodes) {
                assert forall|p: MSize| self.nodes.valid_off(p) implies #[trigger] tree_node_wf(
                    self.nodes,
                    p,
                ) by {
                    if p == o {
                        assert(self.nodes.node_slot(o, 1) == NO_PARENT);
                        assert(self.nodes.node_slot(o, 0) == o);
                    } else {
                        assert(pre.nodes.valid_off(p));
                        assert(tree_node_wf(pre.nodes, p));
                        assert(node_same(pre.nodes, self.nodes, p));
                        let q0 = pre.nodes.node_slot(p, 0);
                        assert(pre.nodes.valid_off(q0));
                        assert(self.nodes.valid_off(q0));
                        let q = pre.nodes.node_slot(p, 1);
                        if q != NO_PARENT {
                            assert(pre.nodes.valid_off(q));
                            assert(tree_node_wf(pre.nodes, q));
                            assert(self.nodes.valid_off(q));
                            assert(node_same(pre.nodes, self.nodes, q));
                            pre.nodes.lemma_valid_bounds(q);
                        }
                    }
                };
            }
        }
        vertex
    }

    /// Connects `parent -> child`, points the child's parent slot at
    /// `parent`, and propagates the parent's root slot into the child.
    #[verifier::rlimit(100)]
    pub fn add_child(&mut self, parent: EdgeHandle, child: EdgeHandle)
        requires
            old(self).wf(),
            old(self).nodes.valid(parent),
            old(self).nodes.valid(child),
            parent.0 != child.0,
            old(self).nodes.node_len(parent.0) < old(self).nodes.node_reserve(parent.0),
            old(self).nodes.node_reserve(child.0) >= 2,
            old(self).nodes.valid_off(old(self).nodes.node_slot(parent.0, 0)),
        ensures
            final(self).wf(),
            final(self).values == old(self).values,
            final(self).nodes.recs() == old(self).nodes.recs(),
            final(self).nodes.buf().len() == old(self).nodes.buf().len(),
            final(self).nodes.base_reserve() == old(self).nodes.base_reserve(),
            final(self).nodes.visited_gen() == old(self).nodes.visited_gen(),
            final(self).nodes.node_len(parent.0) == old(self).nodes.node_len(parent.0) + 1,
            final(self).nodes.node_reserve(parent.0) == old(self).nodes.node_reserve(parent.0),
            final(self).nodes.nbrs(parent.0) == old(self).nodes.nbrs(parent.0).push(child.0),
            final(self).nodes.node_slot(child.0, 0) == final(self).nodes.node_slot(parent.0, 0),
            old(self).nodes.node_len(parent.0) >= 1 ==> final(self).nodes.node_slot(parent.0, 0)
                == old(self).nodes.node_slot(parent.0, 0),
            old(self).nodes.node_len(parent.0) >= 2 ==> final(self).nodes.node_slot(parent.0, 1)
                == old(self).nodes.node_slot(parent.0, 1),
            final(self).nodes.node_len(child.0) == old(self).nodes.node_len(child.0),
            final(self).nodes.node_reserve(child.0) == old(self).nodes.node_reserve(child.0),
            final(self).nodes.node_vertex(child.0) == old(self).nodes.node_vertex(child.0),
            old(self).nodes.node_len(parent.0) >= 1 ==> final(self).nodes.node_slot(child.0, 0)
                == old(self).nodes.node_slot(parent.0, 0),
            final(self).nodes.node_slot(child.0, 1) == parent.0,
            forall|s: int|
                2 <= s < old(self).nodes.node_reserve(child.0)
                    ==> final(self).nodes.node_slot(child.0, s)
                    == old(self).nodes.node_slot(child.0, s),
            forall|p: MSize|
                old(self).nodes.valid_off(p) && p != parent.0 && p != child.0
                    ==> #[trigger] node_same(old(self).nodes, final(self).nodes, p),
    {
        proof {
            old(self).nodes.lemma_valid_bounds(parent.0);
            old(self).nodes.lemma_valid_bounds(child.0);
        }
        self.nodes.connect(parent, child);
        let ghost s1 = *self;
        proof {
            assert(node_same(old(self).nodes, s1.nodes, child.0));
        }
        self.nodes.set(child, parent, 1);
        let ghost s2 = *self;
        proof {
            assert(node_same(s1.nodes, s2.nodes, parent.0));
        }
        let root = self.nodes.get(parent, 0);
        self.nodes.set(child, root, 0);
        proof {
            let pre = *old(self);
            assert(node_same(s1.nodes, s2.nodes, parent.0));
            assert(node_same(s2.nodes, self.nodes, parent.0));
            lemma_node_same_nbrs(s1.nodes, s2.nodes, parent.0);
            lemma_node_same_nbrs(s2.nodes, self.nodes, parent.0);
            assert(self.nodes.nbrs(parent.0) =~= pre.nodes.nbrs(parent.0).push(child.0));
            if pre.nodes.node_len(parent.0) >= 1 {
                assert(s1.nodes.nbrs(parent.0)[0] == pre.nodes.nbrs(parent.0)[0]);
                assert(s1.nodes.node_slot(parent.0, 0) == pre.nodes.node_slot(parent.0, 0));
                assert(self.nodes.node_slot(parent.0, 0) == s1.nodes.node_slot(parent.0, 0));
            }
            if pre.nodes.node_len(parent.0) >= 2 {
                assert(s1.nodes.nbrs(parent.0)[1] == pre.nodes.nbrs(parent.0)[1]);
                assert(s1.nodes.node_slot(parent.0, 1) == pre.nodes.node_slot(parent.0, 1));
                assert(self.nodes.node_slot(parent.0, 1) == s1.nodes.node_slot(parent.0, 1));
            }
            assert(self.nodes.node_slot(parent.0, 0) == s2.nodes.node_slot(parent.0, 0));
            assert forall|p: MSize|
                pre.nodes.valid_off(p) && p != parent.0 && p != child.0
                    implies #[trigger] node_same(pre.nodes, self.nodes, p) by {
                assert(node_same(pre.nodes, s1.nodes, p));
                assert(node_same(s1.nodes, s2.nodes, p));
                assert(node_same(s2.nodes, self.nodes, p));
                lemma_node_same_trans(pre.nodes, s1.nodes, s2.nodes, p);
                lemma_node_same_trans(pre.nodes, s2.nodes, self.nodes, p);
            };
            assert forall|i: int|
                0 <= i < self.nodes.recs().len() implies self.nodes.node_vertex(
                #[trigger] self.nodes.recs()[i],
            ) == i by {
                let p = pre.nodes.recs()[i];
                assert(pre.nodes.recs().contains(p));
                if p != parent.0 && p != child.0 {
                    assert(node_same(pre.nodes, self.nodes, p));
                }
            };
        }
    }

    /// Creates a node and attaches it under `parent`.
    #[verifier::rlimit(100)]
    pub fn create_child(&mut self, parent: EdgeHandle, val: T) -> (r: Handle)
        requires
            old(self).wf(),
            old(self).nodes.valid(parent),
            old(self).nodes.base_reserve() >= 2,
            old(self).nodes.node_len(parent.0) < old(self).nodes.node_reserve(parent.0),
            old(self).nodes.valid_off(old(self).nodes.node_slot(parent.0, 0)),
            old(self).nodes.buf().len() + 4 + old(self).nodes.base_reserve() <= usize::MAX,
        ensures
            final(self).wf(),
            r.vertex_handle.0 == old(self).values.vals().len(),
            r.edge_handle.0 == old(self).nodes.buf().len(),
            r.edge_handle.0 != parent.0,
            final(self).nodes.valid(r.edge_handle),
            final(self).values.vals() == old(self).values.vals().push(val),
            final(self).nodes.recs() == old(self).nodes.recs().push(r.edge_handle.0),
            final(self).nodes.buf().len() == old(self).nodes.buf().len() + 4 + old(
                self,
            ).nodes.base_reserve(),
            final(self).nodes.node_len(r.edge_handle.0) == 2,
            final(self).nodes.node_reserve(r.edge_handle.0) == old(self).nodes.base_reserve(),
            final(self).nodes.node_vertex(r.edge_handle.0) == r.vertex_handle.0,
            old(self).nodes.node_len(parent.0) >= 1 ==> final(self).nodes.node_slot(
                r.edge_handle.0,
                0,
            ) == old(self).nodes.node_slot(parent.0, 0),
            final(self).nodes.node_slot(r.edge_handle.0, 0) == final(self).nodes.node_slot(
                parent.0,
                0,
            ),
            final(self).nodes.node_slot(r.edge_handle.0, 1) == parent.0,
            final(self).nodes.node_len(parent.0) == old(self).nodes.node_len(parent.0) + 1,
            final(self).nodes.node_reserve(parent.0) == old(self).nodes.node_reserve(parent.0),
            final(self).nodes.nbrs(parent.0) == old(self).nodes.nbrs(parent.0).push(
                r.edge_handle.0,
            ),
            forall|p: MSize| old(self).nodes.valid_off(p) ==> final(self).nodes.valid_off(p),
            forall|p: MSize|
                old(self).nodes.valid_off(p) && p != parent.0 ==> #[trigger] node_same(
                    old(self).nodes,
                    final(self).nodes,
                    p,
                ),
            final(self).nodes.base_reserve() == old(self).nodes.base_reserve(),
            final(self).nodes.visited_gen() == old(self).nodes.visited_gen(),
            forest(old(self).nodes) ==> forest(final(self).nodes),
    {
        proof {
            old(self).nodes.lemma_valid_bounds(parent.0);
        }
        let child = self.create_node(val);
        let ghost mid = *self;
        proof {
            assert(node_same(old(self).nodes, mid.nodes, parent.0));
            lemma_node_same_nbrs(old(self).nodes, mid.nodes, parent.0);
            assert forall|p: MSize|
                #[trigger] mid.nodes.valid_off(p) implies p <= child.edge_handle.0 by {
                if p != child.edge_handle.0 {
                    let i = choose|i: int|
                        0 <= i < mid.nodes.recs().len() && mid.nodes.recs()[i] == p;
                    assert(old(self).nodes.recs()[i] == p);
                    assert(old(self).nodes.valid_off(p));
                    old(self).nodes.lemma_valid_bounds(p);
                }
            };
            if forest(old(self).nodes) {
                lemma_newest_unreferenced(mid.nodes, child.edge_handle.0);
            }
        }
        self.add_child(parent, child.edge_handle);
        proof {
            if forest(old(self).nodes) {
                assert(tree_node_wf(mid.nodes, parent.0));
                lemma_add_child_keeps_forest(
                    mid.nodes,
                    self.nodes,
                    parent.0,
                    child.edge_handle.0,
                );
            }
            assert forall|p: MSize|
                old(self).nodes.valid_off(p) && p != parent.0 implies #[trigger] node_same(
                old(self).nodes,
                self.nodes,
                p,
            ) by {
                assert(node_same(old(self).nodes, mid.nodes, p));
                assert(node_same(mid.nodes, self.nodes, p));
                lemma_node_same_trans(old(self).nodes, mid.nodes, self.nodes, p);
            };
        }
        child
    }

    /// The node's children: its occupied adjacency slots past the two
    /// reserved root/parent slots.
    #[verifier::loop_isolation(false)]
    pub fn get_children(&self, parent: EdgeHandle) -> (r: Vec<EdgeHandle>)
        requires
            self.wf(),
            self.nodes.valid(parent),
            self.nodes.node_len(parent.0) >= 2,
        ensures
            r@.len() == self.nodes.node_len(parent.0) - 2,
            forall|j: int|
                0 <= j < r@.len() ==> (#[trigger] r@[j]).0 == self.nodes.node_slot(parent.0, j + 2),
            r@.map_values(|e: EdgeHandle| e.0) == self.nodes.nbrs(parent.0).skip(2),
    {
        proof {
            self.nodes.lemma_valid_bounds(parent.0);
        }
        let len = self.nodes.len(parent);
        let mut out: Vec<EdgeHandle> = Vec::new();
        let mut s: usize = 2;
        while s < len
            invariant
                2 <= s <= len || (len < 2 && s == 2),
                out@.len() == s - 2,
                forall|j: int|
                    0 <= j < out@.len() ==> (#[trigger] out@[j]).0 == self.nodes.node_slot(
                        parent.0,
                        j + 2,
                    ),
            decreases len - s,
        {
            out.push(self.nodes.get(parent, s));
            s += 1;
        }
        proof {
            assert(out@.map_values(|e: EdgeHandle| e.0) =~= self.nodes.nbrs(parent.0).skip(2));
        }
        out
    }

    /// Resolves the node's root back-reference (reserved slot 0).
    pub fn get_root(&self, vertex: EdgeHandle) -> (r: Handle)
        requires
            self.wf(),
            self.nodes.valid(vertex),
            self.nodes.node_reserve(vertex.0) >= 1,
            self.nodes.valid_off(self.nodes.node_slot(vertex.0, 0)),
        ensures
            r.edge_handle.0 == self.nodes.node_slot(vertex.0, 0),
            r.vertex_handle.0 as int == self.nodes.node_vertex(self.nodes.node_slot(vertex.0, 0)),
    {
        let root = self.nodes.get(vertex, 0);
        self.nodes.handle_from_edge_handle(root)
    }

    /// Resolves the node's parent back-reference (reserved slot 1).
    pub fn get_parent(&self, vertex: EdgeHandle) -> (r: Handle)
        requires
            self.wf(),
            self.nodes.valid(vertex),
            self.nodes.node_reserve(vertex.0) >= 2,
            self.nodes.valid_off(self.nodes.node_slot(vertex.0, 1)),
        ensures
            r.edge_handle.0 == self.nodes.node_slot(vertex.0, 1),
            r.vertex_handle.0 as int == self.nodes.node_vertex(self.nodes.node_slot(vertex.0, 1)),
    {
        let parent = self.nodes.get(vertex, 1);
        self.nodes.handle_from_edge_handle(parent)
    }

    /// Reads the owning vertex handle of a node.
    pub fn vertex_handle(&self, edge_handle: EdgeHandle) -> (r: VertexHandle)
        requires
            self.wf(),
            self.nodes.valid(edge_handle),
        ensures
            r.0 as int == self.nodes.node_vertex(edge_handle.0),
    {
        self.nodes.vertex_handle(edge_handle)
    }

    /// Resolves an edge handle to the full handle of the same node.
    pub fn handle_from_edge_handle(&self, edge_handle: EdgeHandle) -> (r: Handle)
        requires
            self.wf(),
            self.nodes.valid(edge_handle),
        ensures
            r.edge_handle == edge_handle,
            r.vertex_handle.0 as int == self.nodes.node_vertex(edge_handle.0),
    {
        self.nodes.handle_from_edge_handle(edge_handle)
    }

    /// Hands the borrowed storage back as a graph.
    pub fn into_graph(self) -> (r: Graph<T>)
        ensures
            r.edges == self.nodes,
            r.vertices == self.values,
    {
        Graph { vertices: self.values, edges: self.nodes }
    }
}

/// In a forest whose newest record is `child`, no other node's parent slot
/// names `child`: parent slots always point to earlier-created records.
pub proof fn lemma_newest_unreferenced(ed: EdgeData, child: MSize)
    requires
        ed.wf(),
        forest(ed),
        ed.valid_off(child),
        forall|p: MSize| #[trigger] ed.valid_off(p) ==> p <= child,
    ensures
        forall|p: MSize|
            ed.valid_off(p) && p != child ==> ed.node_slot(p, 1) != child,
{
    ed.lemma_valid_bounds(child);
    ed.lemma_buf_len();
    assert forall|p: MSize|
        ed.valid_off(p) && p != child implies ed.node_slot(p, 1) != child by {
        assert(tree_node_wf(ed, p));
        if ed.node_slot(p, 1) != NO_PARENT {
            assert(ed.node_slot(p, 1) < p);
        }
    };
}

/// Law: attaching a fresh, childless root under an earlier-created parent
/// preserves the forest convention. `pre` and `post` are the arena before
/// and after the attachment, related as `add_child` leaves them.
pub proof fn lemma_add_child_keeps_forest(
    pre: EdgeData,
    post: EdgeData,
    parent: MSize,
    child: MSize,
)
    requires
        pre.wf(),
        post.wf(),
        pre.valid_off(parent),
        pre.valid_off(child),
        parent != child,
        post.recs() == pre.recs(),
        forest(pre),
        pre.node_len(child) == 2,
        pre.node_slot(child, 1) == NO_PARENT,
        parent < child,
        forall|p: MSize|
            pre.valid_off(p) && p != child ==> pre.node_slot(p, 1) != child,
        post.node_len(parent) == pre.node_len(parent) + 1,
        post.node_reserve(parent) == pre.node_reserve(parent),
        post.node_slot(parent, 0) == pre.node_slot(parent, 0),
        post.node_slot(parent, 1) == pre.node_slot(parent, 1),
        post.node_len(child) == 2,
        post.node_reserve(child) == pre.node_reserve(child),
        post.node_slot(child, 0) == post.node_slot(parent, 0),
        post.node_slot(child, 1) == parent,
        forall|p: MSize|
            pre.valid_off(p) && p != parent && p != child ==> #[trigger] node_same(pre, post, p),
    ensures
        forest(post),
{
    assert(pre.valid_off(parent));
    assert(tree_node_wf(pre, parent));
    assert forall|p: MSize| post.valid_off(p) implies tree_node_wf(post, p) by {
        assert(pre.valid_off(p));
        assert(tree_node_wf(pre, p));
        if p == child {
            assert(post.node_slot(child, 1) == parent);
            assert(post.node_slot(child, 0) == pre.node_slot(parent, 0));
        } else if p == parent {
            let q = pre.node_slot(parent, 1);
            if q != NO_PARENT {
                assert(q != child);
                assert(pre.valid_off(q));
                assert(tree_node_wf(pre, q));
                assert(node_same(pre, post, q));
            }
        } else {
            assert(node_same(pre, post, p));
            let q = pre.node_slot(p, 1);
            if q != NO_PARENT {
                assert(q != child);
                assert(pre.valid_off(q));
                assert(tree_node_wf(pre, q));
                if q == parent {
                    assert(post.node_slot(parent, 0) == pre.node_slot(parent, 0));
                } else {
                    assert(node_same(pre, post, q));
                }
            }
        }
    };
}

/// A tree node is laid out by the tree-view convention: at least the two
/// reserved slots occupied, slot 0 naming a valid root, and slot 1 either the
/// `NO_PARENT` sentinel (then the node is its own root) or a valid,
/// earlier-created parent whose root slot it mirrors.
pub open spec fn tree_node_wf(ed: EdgeData, o: MSize) -> bool {
    &&& ed.node_reserve(o) >= 2
    &&& ed.node_len(o) >= 2
    &&& ed.valid_off(ed.node_slot(o, 0))
    &&& if ed.node_slot(o, 1) == NO_PARENT {
        ed.node_slot(o, 0) == o
    } else {
        &&& ed.valid_off(ed.node_slot(o, 1))
        &&& ed.node_slot(o, 1) < o
        &&& ed.node_slot(o, 0) == ed.node_slot(ed.node_slot(o, 1), 0)
    }
}

/// Every node of the arena obeys the tree-view convention.
pub open spec fn forest(ed: EdgeData) -> bool {
    forall|o: MSize| ed.valid_off(o) ==> #[trigger] tree_node_wf(ed, o)
}

/// The terminal of the parent chain starting at `o`: follow parent slots
/// until a node with no parent is reached.
pub open spec fn parent_chase(ed: EdgeData, o: MSize) -> MSize
    decreases o,
    when forest(ed) && ed.valid_off(o)
    via parent_chase_decreases
{
    if ed.node_slot(o, 1) == NO_PARENT {
        o
    } else {
        parent_chase(ed, ed.node_slot(o, 1))
    }
}

#[via_fn]
proof fn parent_chase_decreases(ed: EdgeData, o: MSize) {
    assert(tree_node_wf(ed, o));
}

/// Law: in a well-formed forest, a node's root slot equals the result of
/// repeatedly following parent slots until reaching a node that is its own
/// root; that terminal node has no parent and is its own root.
pub proof fn lemma_root_is_parent_chase(ed: EdgeData, o: MSize)
    requires
        ed.wf(),
        forest(ed),
        ed.valid_off(o),
    ensures
        ed.node_slot(o, 0) == parent_chase(ed, o),
        ed.node_slot(parent_chase(ed, o), 1) == NO_PARENT,
        ed.node_slot(parent_chase(ed, o), 0) == parent_chase(ed, o),
        ed.valid_off(parent_chase(ed, o)),
    decreases o,
{
    assert(tree_node_wf(ed, o));
    if ed.node_slot(o, 1) != NO_PARENT {
        lemma_root_is_parent_chase(ed, ed.node_slot(o, 1));
    }
}

} // verus!
