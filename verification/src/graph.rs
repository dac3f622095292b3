//! The edge arena and the graph facade.
//!
//! All adjacency data lives in one growable buffer of `MSize` words
//! (`EdgeData`). Every node occupies a record: a four-word header (`len`,
//! `reserve`, `visited_flag`, `v_index`) followed by `reserve` neighbor
//! slots. A node's edge handle is the word offset of its record, which never
//! moves once created, so handles stay valid for the life of the graph.
use std::collections::VecDeque;
use vstd::prelude::*;
use crate::views::tree::TreeView;

verus! {

/// Fixed index width backing every handle and every arena word.
pub type MSize = usize;

/// Number of arena words a node header occupies: `len`, `reserve`,
/// `visited_flag` and `v_index`, one word each.
pub const HEADER_UNITS: usize = 4;

#[derive(Debug)]
pub enum Error {
    NoHandle,
}

#[derive(PartialEq, Eq, Structural)]
pub enum TraverseResult {
    Continue,
    End,
}

/// Word offset of a node's record in the edge arena.
#[derive(Copy, Clone, PartialEq, Eq, Structural, Debug)]
pub struct EdgeHandle(pub MSize);

/// Index of a node's payload in the vertex store.
#[derive(Copy, Clone, PartialEq, Eq, Structural, Debug)]
pub struct VertexHandle(pub MSize);

/// The edge handle and vertex handle of one node, bundled.
#[derive(Copy, Clone, PartialEq, Eq, Structural, Debug)]
pub struct Handle {
    pub edge_handle: EdgeHandle,
    pub vertex_handle: VertexHandle,
}

/// A node header, as stored in the first `HEADER_UNITS` words of a record.
pub struct Header {
    pub len: MSize,
    pub reserve: MSize,
    pub visited_flag: MSize,
    pub v_index: VertexHandle,
}

impl Handle {
    pub fn new(edge_handle: MSize, val_handle: MSize) -> (r: Self)
        ensures
            r.edge_handle.0 == edge_handle,
            r.vertex_handle.0 == val_handle,
    {
        Handle { edge_handle: EdgeHandle(edge_handle), vertex_handle: VertexHandle(val_handle) }
    }
}

pub fn header_size_in_msize_units() -> (r: usize)
    ensures
        r == HEADER_UNITS,
{
    HEADER_UNITS
}

/// Append-only store of vertex payloads, indexed by vertex handle.
pub struct Vertices<T> {
    data: Vec<T>,
}

impl<T> Vertices<T> {
    /// The payloads as a mathematical sequence.
    pub closed spec fn vals(self) -> Seq<T> {
        self.data@
    }

    pub fn new() -> (r: Self)
        ensures
            r.vals() =~= Seq::<T>::empty(),
    {
        Vertices { data: Vec::new() }
    }

    pub fn push(&mut self, val: T)
        ensures
            final(self).vals() == old(self).vals().push(val),
    {
        self.data.push(val);
    }

    pub fn len(&self) -> (r: usize)
        ensures
            r == self.vals().len(),
    {
        self.data.len()
    }

    pub fn at(&self, index: MSize) -> (r: &T)
        requires
            index < self.vals().len(),
        ensures
            *r == self.vals()[index as int],
    {
        &self.data[index]
    }

    /// Indexed read through a vertex handle.
    pub fn at_handle(&self, index: VertexHandle) -> (r: &T)
        requires
            index.0 < self.vals().len(),
        ensures
            *r == self.vals()[index.0 as int],
    {
        &self.data[index.0]
    }

    /// Indexed write through a vertex handle.
    pub fn set_at(&mut self, index: VertexHandle, val: T)
        requires
            index.0 < old(self).vals().len(),
        ensures
            final(self).vals() == old(self).vals().update(index.0 as int, val),
    {
        self.data[index.0] = val;
    }
}

impl<T: Copy> Vertices<T> {
    /// Overwrites the contiguous payload range starting at `start` with
    /// `part`, leaving everything outside the range unchanged: the
    /// write-back half of a split bulk pass.
    #[verifier::loop_isolation(false)]
    pub fn write_range(&mut self, start: MSize, part: &Vec<T>)
        requires
            start + part@.len() <= old(self).vals().len(),
        ensures
            final(self).vals().len() == old(self).vals().len(),
            forall|j: int|
                0 <= j < part@.len() ==> final(self).vals()[start + j] == #[trigger] part@[j],
            forall|j: int|
                0 <= j < old(self).vals().len() && !(start <= j < start + part@.len())
                    ==> final(self).vals()[j] == old(self).vals()[j],
    {
        let n = part.len();
        let mut k: usize = 0;
        while k < n
            invariant
                k <= n,
                self.vals().len() == old(self).vals().len(),
                forall|j: int| 0 <= j < k ==> self.vals()[start + j] == #[trigger] part@[j],
                forall|j: int|
                    0 <= j < old(self).vals().len() && !(start <= j < start + k) ==> self.vals()[j]
                        == old(self).vals()[j],
            decreases n - k,
        {
            proof {
                vstd::std_specs::vec::axiom_spec_len(&self.data);
            }
            self.data[start + k] = part[k];
            k += 1;
        }
    }

    /// The payloads, copied out as one array in handle order: the gather
    /// half of a split bulk pass.
    #[verifier::loop_isolation(false)]
    pub fn payloads(&self) -> (r: Vec<T>)
        ensures
            r@ == self.vals(),
    {
        let n = self.data.len();
        let mut out: Vec<T> = Vec::new();
        let mut i: usize = 0;
        while i < n
            invariant
                i <= n,
                out@.len() == i,
                forall|j: int| 0 <= j < i ==> #[trigger] out@[j] == self.vals()[j],
            decreases n - i,
        {
            out.push(self.data[i]);
            i += 1;
        }
        proof {
            assert(out@ =~= self.vals());
        }
        out
    }

    /// Applies `transform_fn` once to every payload, sequentially, in place.
    #[verifier::loop_isolation(false)]
    pub fn transform<F: Fn(T) -> T>(&mut self, transform_fn: F)
        requires
            forall|i: int|
                0 <= i < old(self).vals().len() ==> call_requires(
                    transform_fn,
                    (old(self).vals()[i],),
                ),
        ensures
            final(self).vals().len() == old(self).vals().len(),
            forall|i: int|
                0 <= i < old(self).vals().len() ==> call_ensures(
                    transform_fn,
                    (old(self).vals()[i],),
                    #[trigger] final(self).vals()[i],
                ),
    {
        let n = self.data.len();
        let mut i: usize = 0;
        while i < n
            invariant
                i <= n,
                self.vals().len() == n,
                forall|j: int| i <= j < n ==> self.vals()[j] == old(self).vals()[j],
                forall|j: int|
                    0 <= j < i ==> call_ensures(
                        transform_fn,
                        (old(self).vals()[j],),
                        #[trigger] self.vals()[j],
                    ),
            decreases n - i,
        {
            let v = self.data[i];
            proof {
                assert(v == old(self).vals()[i as int]);
            }
            let w = transform_fn(v);
            self.data[i] = w;
            i += 1;
            proof {
                assert(self.vals()[i - 1] == w);
            }
        }
    }
}

/// A single part of a split elementwise pass: applies `transform_fn` once
/// to every element, yielding the transformed part. Workers of a parallel
/// pass run this on their own disjoint part.
#[verifier::loop_isolation(false)]
pub fn transform_part<T: Copy, F: Fn(T) -> T>(part: &Vec<T>, transform_fn: F) -> (r: Vec<T>)
    requires
        forall|i: int| 0 <= i < part@.len() ==> call_requires(transform_fn, (part@[i],)),
    ensures
        r@.len() == part@.len(),
        forall|i: int|
            0 <= i < part@.len() ==> call_ensures(transform_fn, (part@[i],), #[trigger] r@[i]),
{
    let n = part.len();
    let mut out: Vec<T> = Vec::new();
    let mut i: usize = 0;
    while i < n
        invariant
            i <= n,
            out@.len() == i,
            forall|j: int|
                0 <= j < i ==> call_ensures(transform_fn, (part@[j],), #[trigger] out@[j]),
        decreases n - i,
    {
        out.push(transform_fn(part[i]));
        i += 1;
    }
    out
}

/// Law: an elementwise pass with a deterministic function has exactly one
/// possible result sequence, so any two passes over the same payloads -
/// sequential, or split into disjoint parts and rejoined - agree element by
/// element and therefore as whole arrays.
pub proof fn lemma_transform_deterministic<T, F: Fn(T) -> T>(
    f: F,
    input: Seq<T>,
    a: Seq<T>,
    b: Seq<T>,
)
    requires
        forall|x: T, y1: T, y2: T|
            call_ensures(f, (x,), y1) && call_ensures(f, (x,), y2) ==> y1 == y2,
        a.len() == input.len(),
        b.len() == input.len(),
        forall|i: int| 0 <= i < input.len() ==> call_ensures(f, (input[i],), #[trigger] a[i]),
        forall|i: int| 0 <= i < input.len() ==> call_ensures(f, (input[i],), #[trigger] b[i]),
    ensures
        a == b,
{
    assert forall|i: int| 0 <= i < input.len() implies a[i] == b[i] by {
        assert(call_ensures(f, (input[i],), a[i]));
        assert(call_ensures(f, (input[i],), b[i]));
    };
    assert(a =~= b);
}

/// The edge arena: all node records, concatenated in creation order.
pub struct EdgeData {
    visited_val: MSize,
    reserve: usize,
    edges: Vec<MSize>,
    starts: Ghost<Seq<MSize>>,
}

impl EdgeData {
    /// The arena buffer as a sequence of words.
    pub closed spec fn buf(self) -> Seq<MSize> {
        self.edges@
    }

    /// The record start offsets, in creation order.
    pub closed spec fn recs(self) -> Seq<MSize> {
        self.starts@
    }

    /// The per-arena default neighbor reserve applied to every new record.
    pub closed spec fn base_reserve(self) -> int {
        self.reserve as int
    }

    /// The current traversal pass-generation value.
    pub closed spec fn visited_gen(self) -> int {
        self.visited_val as int
    }

    /// An offset is valid when it is the start of some record.
    pub open spec fn valid_off(self, o: MSize) -> bool {
        self.recs().contains(o)
    }

    pub open spec fn valid(self, h: EdgeHandle) -> bool {
        self.valid_off(h.0)
    }

    /// Occupied-neighbor count of the node at offset `o`.
    pub open spec fn node_len(self, o: MSize) -> int {
        self.buf()[o as int] as int
    }

    /// Reserved neighbor capacity of the node at offset `o`.
    pub open spec fn node_reserve(self, o: MSize) -> int {
        self.buf()[o as int + 1] as int
    }

    /// Traversal generation marker of the node at offset `o`.
    pub open spec fn node_visited(self, o: MSize) -> int {
        self.buf()[o as int + 2] as int
    }

    /// Owning vertex index of the node at offset `o`.
    pub open spec fn node_vertex(self, o: MSize) -> int {
        self.buf()[o as int + 3] as int
    }

    /// Value of adjacency slot `s` (`0 <= s < node_reserve`) of the node at `o`.
    pub open spec fn node_slot(self, o: MSize, s: int) -> MSize {
        self.buf()[o as int + 4 + s]
    }

    /// The occupied neighbor slots of the node at `o`, in slot order.
    pub open spec fn nbrs(self, o: MSize) -> Seq<MSize> {
        self.buf().subrange(o as int + 4, o as int + 4 + self.node_len(o))
    }

    /// Record `i` is laid out correctly and ends where the next record begins.
    pub open spec fn record_wf(self, i: int) -> bool {
        let o = self.recs()[i];
        &&& o as int + 4 + self.node_reserve(o) <= self.buf().len()
        &&& 0 <= self.node_len(o) <= self.node_reserve(o)
        &&& o as int + 4 + self.node_reserve(o) == if i + 1 < self.recs().len() {
            self.recs()[i + 1] as int
        } else {
            self.buf().len() as int
        }
    }

    /// The records tile the whole buffer, from offset zero, without gaps.
    pub open spec fn wf(self) -> bool {
        &&& self.recs().len() == 0 ==> self.buf().len() == 0
        &&& self.recs().len() > 0 ==> self.recs()[0] == 0
        &&& forall|i: int| 0 <= i < self.recs().len() ==> #[trigger] self.record_wf(i)
    }

    /// The buffer length always fits in the index width.
    pub proof fn lemma_buf_len(self)
        ensures
            self.buf().len() <= usize::MAX,
    {
        vstd::std_specs::vec::axiom_spec_len(&self.edges);
    }

    proof fn lemma_recs_le(self, i: int, j: int)
        requires
            self.wf(),
            0 <= i < j < self.recs().len(),
        ensures
            self.recs()[i] as int + 4 + self.node_reserve(self.recs()[i]) <= self.recs()[j] as int,
        decreases j - i,
    {
        assert(self.record_wf(i));
        if i + 1 < j {
            self.lemma_recs_le(i + 1, j);
            assert(self.record_wf(i + 1));
        }
    }

    /// A valid record lies within the buffer and its `len` within its reserve.
    pub proof fn lemma_valid_bounds(self, o: MSize)
        requires
            self.wf(),
            self.valid_off(o),
        ensures
            o as int + 4 + self.node_reserve(o) <= self.buf().len(),
            0 <= self.node_len(o) <= self.node_reserve(o),
    {
        let i = choose|i: int| 0 <= i < self.recs().len() && self.recs()[i] == o;
        assert(self.record_wf(i));
    }

    /// Two distinct valid records occupy disjoint word ranges.
    pub proof fn lemma_disjoint(self, o1: MSize, o2: MSize)
        requires
            self.wf(),
            self.valid_off(o1),
            self.valid_off(o2),
            o1 != o2,
        ensures
            o1 as int + 4 + self.node_reserve(o1) <= o2 as int
                || o2 as int + 4 + self.node_reserve(o2) <= o1 as int,
    {
        let i = choose|i: int| 0 <= i < self.recs().len() && self.recs()[i] == o1;
        let j = choose|j: int| 0 <= j < self.recs().len() && self.recs()[j] == o2;
        if i < j {
            self.lemma_recs_le(i, j);
        } else if j < i {
            self.lemma_recs_le(j, i);
        }
    }
}

/// Every observable field and slot of the node at `o` is the same in both
/// arena states.
pub open spec fn node_same(pre: EdgeData, post: EdgeData, o: MSize) -> bool {
    &&& post.node_len(o) == pre.node_len(o)
    &&& post.node_reserve(o) == pre.node_reserve(o)
    &&& post.node_visited(o) == pre.node_visited(o)
    &&& post.node_vertex(o) == pre.node_vertex(o)
    &&& forall|s: int| 0 <= s < pre.node_reserve(o) ==> post.node_slot(o, s) == pre.node_slot(
        o,
        s,
    )
}

/// A node whose words are all unchanged keeps its occupied-slot sequence.
pub proof fn lemma_node_same_nbrs(pre: EdgeData, post: EdgeData, o: MSize)
    requires
        pre.wf(),
        pre.valid_off(o),
        pre.buf().len() <= post.buf().len(),
        node_same(pre, post, o),
    ensures
        post.nbrs(o) == pre.nbrs(o),
{
    pre.lemma_valid_bounds(o);
    assert forall|s: int| 0 <= s < pre.node_len(o) implies post.nbrs(o)[s] == pre.nbrs(o)[s] by {
        assert(post.node_slot(o, s) == pre.node_slot(o, s));
    };
    assert(post.nbrs(o) =~= pre.nbrs(o));
}

/// Updating words only inside one record's range leaves every other record
/// untouched and, if the record's `len` stays within its reserve, keeps the
/// arena well-formed. `touched` is the set of updated word indexes.
pub proof fn lemma_frame(pre: EdgeData, post: EdgeData, o: MSize, touched: Set<int>)
    requires
        pre.wf(),
        pre.valid_off(o),
        forall|k: int| touched.contains(k) ==> o as int <= k < o as int + 4 + pre.node_reserve(o),
        !touched.contains(o as int + 1),
        post.recs() == pre.recs(),
        post.buf().len() == pre.buf().len(),
        forall|k: int|
            0 <= k < pre.buf().len() && !touched.contains(k) ==> post.buf()[k] == pre.buf()[k],
        0 <= post.node_len(o) <= pre.node_reserve(o),
    ensures
        post.wf(),
        post.node_reserve(o) == pre.node_reserve(o),
        forall|p: MSize| pre.valid_off(p) && p != o ==> #[trigger] node_same(pre, post, p),
{
    pre.lemma_valid_bounds(o);
    assert(!touched.contains(o as int + 1));
    assert(post.node_reserve(o) == pre.node_reserve(o));
    assert forall|p: MSize| pre.valid_off(p) && p != o implies #[trigger] node_same(
        pre,
        post,
        p,
    ) by {
        pre.lemma_valid_bounds(p);
        pre.lemma_disjoint(o, p);
        assert(!touched.contains(p as int));
        assert(!touched.contains(p as int + 1));
        assert(!touched.contains(p as int + 2));
        assert(!touched.contains(p as int + 3));
        assert forall|s: int|
            0 <= s < pre.node_reserve(p) implies post.node_slot(p, s) == pre.node_slot(p, s) by {
            assert(!touched.contains(p as int + 4 + s));
        };
    };
    assert forall|i: int| 0 <= i < post.recs().len() implies #[trigger] post.record_wf(i) by {
        assert(pre.record_wf(i));
        let p = pre.recs()[i];
        assert(pre.recs().contains(p));
        if p != o {
            assert(node_same(pre, post, p));
        }
    };
}

impl EdgeData {
    /// Creates an arena for dynamic use: a generous default reserve of 50
    /// neighbor slots per node, avoiding repeated capacity planning.
    pub fn new_dyn() -> (r: Self)
        ensures
            r.wf(),
            r.recs() =~= Seq::<MSize>::empty(),
            r.buf().len() == 0,
            r.base_reserve() == 50,
            r.visited_gen() == 1,
    {
        EdgeData { visited_val: 1, reserve: 50, edges: Vec::new(), starts: Ghost(Seq::empty()) }
    }

    /// Creates an arena whose every node gets at least `capacity` slots.
    pub fn with_reserve(capacity: usize) -> (r: Self)
        ensures
            r.wf(),
            r.recs() =~= Seq::<MSize>::empty(),
            r.buf().len() == 0,
            r.base_reserve() == capacity,
            r.visited_gen() == 1,
    {
        EdgeData { visited_val: 1, reserve: capacity, edges: Vec::new(), starts: Ghost(Seq::empty()) }
    }

    /// Creates an arena for graphs whose shape is known ahead of time: no
    /// default reserve, every slot requested explicitly per node.
    pub fn new() -> (r: Self)
        ensures
            r.wf(),
            r.recs() =~= Seq::<MSize>::empty(),
            r.buf().len() == 0,
            r.base_reserve() == 0,
            r.visited_gen() == 1,
    {
        EdgeData { visited_val: 1, reserve: 0, edges: Vec::new(), starts: Ghost(Seq::empty()) }
    }

    /// Appends a fresh record with `base_reserve + size` neighbor slots and
    /// writes its header in place. Every existing record is untouched, so
    /// previously returned handles keep addressing the same nodes.
    pub fn create_edges_entry(&mut self, size: usize, vertex_handle: VertexHandle) -> (h:
        EdgeHandle)
        requires
            old(self).wf(),
            old(self).buf().len() + 4 + old(self).base_reserve() + size <= usize::MAX,
        ensures
            final(self).wf(),
            h.0 == old(self).buf().len(),
            final(self).valid_off(h.0),
            final(self).recs() == old(self).recs().push(h.0),
            final(self).buf().len() == old(self).buf().len() + 4 + old(self).base_reserve()
                + size,
            final(self).buf().subrange(0, old(self).buf().len() as int) == old(self).buf(),
            final(self).node_len(h.0) == 0,
            final(self).node_reserve(h.0) == old(self).base_reserve() + size,
            final(self).node_visited(h.0) == 0,
            final(self).node_vertex(h.0) == vertex_handle.0,
            final(self).nbrs(h.0) == Seq::<MSize>::empty(),
            forall|p: MSize| old(self).valid_off(p) ==> final(self).valid_off(p),
            forall|p: MSize|
                old(self).valid_off(p) ==> #[trigger] node_same(*old(self), *final(self), p),
            final(self).base_reserve() == old(self).base_reserve(),
            final(self).visited_gen() == old(self).visited_gen(),
    {
        let offset = self.edges.len();
        let total_reserve = self.reserve + size;
        let new_len = offset + HEADER_UNITS + total_reserve;
        self.edges.resize(new_len, 0);
        let ghost after_resize = self.edges@;
        self.edges[offset] = 0;
        self.edges[offset + 1] = total_reserve;
        self.edges[offset + 2] = 0;
        self.edges[offset + 3] = vertex_handle.0;
        proof {
            self.starts@ = self.starts@.push(offset);
            assert forall|i: int| 0 <= i < offset implies self.edges@[i] == old(
                self,
            ).edges@[i] by {
                assert(after_resize.subrange(0, offset as int)[i] == old(self).edges@[i]);
            };
            assert(self.edges@.len() == offset + 4 + total_reserve);
        }
        let h = EdgeHandle(offset);
        proof {
            let pre = *old(self);
            assert(self.buf().subrange(0, pre.buf().len() as int) =~= pre.buf());
            assert(self.nbrs(offset) =~= Seq::<MSize>::empty());
            assert(self.recs()[self.recs().len() - 1] == offset);
            assert(self.valid_off(offset));
            assert forall|p: MSize| pre.valid_off(p) implies self.valid_off(p) by {
                let i = choose|i: int| 0 <= i < pre.recs().len() && pre.recs()[i] == p;
                assert(self.recs()[i] == p);
            };
            assert forall|p: MSize| pre.valid_off(p) implies #[trigger] node_same(
                pre,
                *self,
                p,
            ) by {
                pre.lemma_valid_bounds(p);
            };
            assert forall|i: int| 0 <= i < self.recs().len() implies #[trigger] self.record_wf(
                i,
            ) by {
                if i < pre.recs().len() {
                    assert(pre.record_wf(i));
                    let p = pre.recs()[i];
                    assert(pre.recs().contains(p));
                    assert(node_same(pre, *self, p));
                } else {
                    assert(self.recs()[i] == offset);
                }
            };
        }
        h
    }

    /// Reads the occupied-neighbor count from the node's header.
    pub fn len(&self, vertex: EdgeHandle) -> (r: MSize)
        requires
            self.wf(),
            self.valid(vertex),
        ensures
            r as int == self.node_len(vertex.0),
    {
        proof {
            self.lemma_valid_bounds(vertex.0);
        }
        self.edges[vertex.0]
    }

    /// Reads the reserved neighbor capacity from the node's header.
    pub fn reserve(&mut self, edge_handle: EdgeHandle) -> (r: MSize)
        requires
            old(self).wf(),
            old(self).valid(edge_handle),
        ensures
            *final(self) == *old(self),
            r as int == old(self).node_reserve(edge_handle.0),
    {
        proof {
            self.lemma_valid_bounds(edge_handle.0);
            self.lemma_buf_len();
        }
        self.edges[edge_handle.0 + 1]
    }

    /// Total words consumed by the whole arena buffer.
    pub fn capacity(&self) -> (r: usize)
        ensures
            r == self.buf().len(),
    {
        self.edges.len()
    }

    /// Reads the owning vertex handle from the node's header.
    pub fn vertex_handle(&self, edge_handle: EdgeHandle) -> (r: VertexHandle)
        requires
            self.wf(),
            self.valid(edge_handle),
        ensures
            r.0 as int == self.node_vertex(edge_handle.0),
    {
        proof {
            self.lemma_valid_bounds(edge_handle.0);
            self.lemma_buf_len();
        }
        VertexHandle(self.edges[edge_handle.0 + 3])
    }

    /// Resolves an edge handle to the full handle of the same node.
    pub fn handle_from_edge_handle(&self, edge_handle: EdgeHandle) -> (r: Handle)
        requires
            self.wf(),
            self.valid(edge_handle),
        ensures
            r.edge_handle == edge_handle,
            r.vertex_handle.0 as int == self.node_vertex(edge_handle.0),
    {
        let v = self.vertex_handle(edge_handle);
        Handle { edge_handle, vertex_handle: v }
    }

    /// Reads a node's whole header in one piece.
    pub fn header(&self, edge_handle: EdgeHandle) -> (r: Header)
        requires
            self.wf(),
            self.valid(edge_handle),
        ensures
            r.len as int == self.node_len(edge_handle.0),
            r.reserve as int == self.node_reserve(edge_handle.0),
            r.visited_flag as int == self.node_visited(edge_handle.0),
            r.v_index.0 as int == self.node_vertex(edge_handle.0),
    {
        proof {
            self.lemma_valid_bounds(edge_handle.0);
            self.lemma_buf_len();
        }
        let o = edge_handle.0;
        Header {
            len: self.edges[o],
            reserve: self.edges[o + 1],
            visited_flag: self.edges[o + 2],
            v_index: VertexHandle(self.edges[o + 3]),
        }
    }

    /// Raw indexed read of a node's slot array, bounded by its reserve (not
    /// by its occupied count); the tree view uses it for its reserved slots.
    pub fn get(&self, vertex: EdgeHandle, offset: usize) -> (r: EdgeHandle)
        requires
            self.wf(),
            self.valid(vertex),
            offset < self.node_reserve(vertex.0),
        ensures
            r.0 == self.node_slot(vertex.0, offset as int),
    {
        proof {
            self.lemma_valid_bounds(vertex.0);
            self.lemma_buf_len();
        }
        EdgeHandle(self.edges[vertex.0 + HEADER_UNITS + offset])
    }
}

/// `node_same` composes across two arena states.
pub proof fn lemma_node_same_trans(a: EdgeData, b: EdgeData, c: EdgeData, o: MSize)
    requires
        node_same(a, b, o),
        node_same(b, c, o),
    ensures
        node_same(a, c, o),
{
    assert forall|s: int| 0 <= s < a.node_reserve(o) implies c.node_slot(o, s) == a.node_slot(
        o,
        s,
    ) by {
        assert(b.node_slot(o, s) == a.node_slot(o, s));
    };
}

impl EdgeData {
    /// Appends `to` into `from`'s next free adjacency slot and increments its
    /// occupied count. Capacity is fixed at creation, so a full node is ruled
    /// out by precondition rather than grown.
    pub fn connect(&mut self, from: EdgeHandle, to: EdgeHandle)
        requires
            old(self).wf(),
            old(self).valid(from),
            old(self).node_len(from.0) < old(self).node_reserve(from.0),
        ensures
            final(self).wf(),
            final(self).recs() == old(self).recs(),
            final(self).buf().len() == old(self).buf().len(),
            final(self).base_reserve() == old(self).base_reserve(),
            final(self).visited_gen() == old(self).visited_gen(),
            final(self).node_len(from.0) == old(self).node_len(from.0) + 1,
            final(self).node_reserve(from.0) == old(self).node_reserve(from.0),
            final(self).node_visited(from.0) == old(self).node_visited(from.0),
            final(self).node_vertex(from.0) == old(self).node_vertex(from.0),
            final(self).nbrs(from.0) == old(self).nbrs(from.0).push(to.0),
            forall|p: MSize|
                old(self).valid_off(p) && p != from.0 ==> #[trigger] node_same(
                    *old(self),
                    *final(self),
                    p,
                ),
    {
        proof {
            self.lemma_valid_bounds(from.0);
            self.lemma_buf_len();
        }
        let o = from.0;
        let len = self.edges[o];
        self.edges[o + HEADER_UNITS + len] = to.0;
        self.edges[o] = len + 1;
        proof {
            let pre = *old(self);
            let touched = set![o as int + 4 + pre.node_len(o), o as int];
            lemma_frame(pre, *self, o, touched);
            assert forall|j: int|
                0 <= j <= pre.node_len(o) implies self.nbrs(o)[j] == pre.nbrs(o).push(to.0)[j] by {
                if j < pre.node_len(o) {
                    assert(self.buf()[o as int + 4 + j] == pre.buf()[o as int + 4 + j]);
                }
            };
            assert(self.nbrs(o) =~= pre.nbrs(o).push(to.0));
        }
    }

    /// Appends every handle in `new_edges` to the node's adjacency, in order.
    #[verifier::loop_isolation(false)]
    pub fn add_edges(&mut self, edge_handle: EdgeHandle, new_edges: &[EdgeHandle])
        requires
            old(self).wf(),
            old(self).valid(edge_handle),
            old(self).node_len(edge_handle.0) + new_edges@.len() <= old(self).node_reserve(
                edge_handle.0,
            ),
        ensures
            final(self).wf(),
            final(self).recs() == old(self).recs(),
            final(self).buf().len() == old(self).buf().len(),
            final(self).base_reserve() == old(self).base_reserve(),
            final(self).visited_gen() == old(self).visited_gen(),
            final(self).node_len(edge_handle.0) == old(self).node_len(edge_handle.0)
                + new_edges@.len(),
            final(self).node_reserve(edge_handle.0) == old(self).node_reserve(edge_handle.0),
            final(self).node_visited(edge_handle.0) == old(self).node_visited(edge_handle.0),
            final(self).node_vertex(edge_handle.0) == old(self).node_vertex(edge_handle.0),
            final(self).nbrs(edge_handle.0) == old(self).nbrs(edge_handle.0) + new_edges@.map_values(
                |e: EdgeHandle| e.0,
            ),
            forall|p: MSize|
                old(self).valid_off(p) && p != edge_handle.0 ==> #[trigger] node_same(
                    *old(self),
                    *final(self),
                    p,
                ),
    {
        let ghost target = new_edges@.map_values(|e: EdgeHandle| e.0);
        let mut i: usize = 0;
        proof {
            assert(self.nbrs(edge_handle.0) =~= old(self).nbrs(edge_handle.0) + target.take(0));
        }
        while i < new_edges.len()
            invariant
                i <= new_edges@.len(),
                self.wf(),
                self.valid(edge_handle),
                self.recs() == old(self).recs(),
                self.buf().len() == old(self).buf().len(),
                self.base_reserve() == old(self).base_reserve(),
                self.visited_gen() == old(self).visited_gen(),
                self.node_len(edge_handle.0) == old(self).node_len(edge_handle.0) + i,
                self.node_reserve(edge_handle.0) == old(self).node_reserve(edge_handle.0),
                self.node_visited(edge_handle.0) == old(self).node_visited(edge_handle.0),
                self.node_vertex(edge_handle.0) == old(self).node_vertex(edge_handle.0),
                self.nbrs(edge_handle.0) == old(self).nbrs(edge_handle.0) + target.take(i as int),
                forall|p: MSize|
                    old(self).valid_off(p) && p != edge_handle.0 ==> #[trigger] node_same(
                        *old(self),
                        *self,
                        p,
                    ),
            decreases new_edges@.len() - i,
        {
            let ghost mid = *self;
            self.connect(edge_handle, new_edges[i]);
            i += 1;
            proof {
                assert(target.take(i as int) =~= target.take(i - 1).push(target[i - 1]));
                assert(self.nbrs(edge_handle.0) =~= old(self).nbrs(edge_handle.0) + target.take(
                    i as int,
                ));
                assert forall|p: MSize|
                    old(self).valid_off(p) && p != edge_handle.0 implies #[trigger] node_same(
                    *old(self),
                    *self,
                    p,
                ) by {
                    assert(node_same(*old(self), mid, p));
                    assert(node_same(mid, *self, p));
                    lemma_node_same_trans(*old(self), mid, *self, p);
                };
            }
        }
        proof {
            assert(target.take(new_edges@.len() as int) =~= target);
        }
    }

    /// Raw indexed write of a node's slot array, bounded by its reserve (not
    /// by its occupied count); the tree view uses it for its reserved slots.
    pub fn set(&mut self, src: EdgeHandle, edge_handle: EdgeHandle, edge_offset: usize)
        requires
            old(self).wf(),
            old(self).valid(src),
            edge_offset < old(self).node_reserve(src.0),
        ensures
            final(self).wf(),
            final(self).recs() == old(self).recs(),
            final(self).buf().len() == old(self).buf().len(),
            final(self).base_reserve() == old(self).base_reserve(),
            final(self).visited_gen() == old(self).visited_gen(),
            final(self).node_len(src.0) == old(self).node_len(src.0),
            final(self).node_reserve(src.0) == old(self).node_reserve(src.0),
            final(self).node_visited(src.0) == old(self).node_visited(src.0),
            final(self).node_vertex(src.0) == old(self).node_vertex(src.0),
            final(self).node_slot(src.0, edge_offset as int) == edge_handle.0,
            forall|s: int|
                0 <= s < old(self).node_reserve(src.0) && s != edge_offset
                    ==> final(self).node_slot(src.0, s) == old(self).node_slot(src.0, s),
            edge_offset < old(self).node_len(src.0) ==> final(self).nbrs(src.0) == old(self).nbrs(
                src.0,
            ).update(edge_offset as int, edge_handle.0),
            edge_offset >= old(self).node_len(src.0) ==> final(self).nbrs(src.0) == old(self).nbrs(
                src.0,
            ),
            forall|p: MSize|
                old(self).valid_off(p) && p != src.0 ==> #[trigger] node_same(
                    *old(self),
                    *final(self),
                    p,
                ),
    {
        proof {
            self.lemma_valid_bounds(src.0);
            self.lemma_buf_len();
        }
        let o = src.0;
        self.edges[o + HEADER_UNITS + edge_offset] = edge_handle.0;
        proof {
            let pre = *old(self);
            lemma_frame(pre, *self, o, set![o as int + 4 + edge_offset as int]);
            if edge_offset < pre.node_len(o) {
                assert(self.nbrs(o) =~= pre.nbrs(o).update(edge_offset as int, edge_handle.0));
            } else {
                assert(self.nbrs(o) =~= pre.nbrs(o));
            }
        }
    }

    /// Scans the occupied slots of `src` for `vertex`; on the first match,
    /// overwrites it with the last occupied slot and decrements the count
    /// (swap-remove). An absent neighbor makes the call a silent no-op.
    #[verifier::loop_isolation(false)]
    pub fn disconnect(&mut self, src: EdgeHandle, vertex: EdgeHandle)
        requires
            old(self).wf(),
            old(self).valid(src),
        ensures
            final(self).wf(),
            final(self).recs() == old(self).recs(),
            final(self).buf().len() == old(self).buf().len(),
            final(self).base_reserve() == old(self).base_reserve(),
            final(self).visited_gen() == old(self).visited_gen(),
            final(self).node_reserve(src.0) == old(self).node_reserve(src.0),
            final(self).node_visited(src.0) == old(self).node_visited(src.0),
            final(self).node_vertex(src.0) == old(self).node_vertex(src.0),
            match old(self).nbrs(src.0).index_of_first(vertex.0) {
                Some(i) => {
                    &&& final(self).node_len(src.0) == old(self).node_len(src.0) - 1
                    &&& final(self).nbrs(src.0) == old(self).nbrs(src.0).update(
                        i,
                        old(self).nbrs(src.0).last(),
                    ).drop_last()
                },
                None => *final(self) == *old(self),
            },
            forall|p: MSize|
                old(self).valid_off(p) && p != src.0 ==> #[trigger] node_same(
                    *old(self),
                    *final(self),
                    p,
                ),
    {
        proof {
            self.lemma_valid_bounds(src.0);
            self.lemma_buf_len();
            old(self).nbrs(src.0).index_of_first_ensures(vertex.0);
        }
        let o = src.0;
        let len = self.edges[o];
        let mut s: usize = 0;
        while s < len && self.edges[o + HEADER_UNITS + s] != vertex.0
            invariant
                s <= len,
                *self == *old(self),
                forall|j: int| 0 <= j < s ==> old(self).nbrs(o)[j] != vertex.0,
            decreases len - s,
        {
            s += 1;
        }
        if s < len {
            proof {
                assert(old(self).nbrs(o)[s as int] == vertex.0);
                assert(old(self).nbrs(o).index_of_first(vertex.0) == Some(s as int));
            }
            let last = self.edges[o + HEADER_UNITS + len - 1];
            self.edges[o + HEADER_UNITS + s] = last;
            self.edges[o] = len - 1;
            proof {
                let pre = *old(self);
                let touched = set![o as int + 4 + s, o as int];
                lemma_frame(pre, *self, o, touched);
                let expect = pre.nbrs(o).update(s as int, pre.nbrs(o).last()).drop_last();
                assert forall|j: int| 0 <= j < len - 1 implies self.nbrs(o)[j] == expect[j] by {
                    if j != s {
                        assert(self.buf()[o as int + 4 + j] == pre.buf()[o as int + 4 + j]);
                    }
                };
                assert(self.nbrs(o) =~= expect);
            }
        } else {
            proof {
                assert forall|j: int|
                    0 <= j < old(self).nbrs(o).len() implies old(self).nbrs(o)[j] != vertex.0 by {};
                assert(!old(self).nbrs(o).contains(vertex.0));
                assert(old(self).nbrs(o).index_of_first(vertex.0) is None);
            }
        }
    }

    /// Law: disconnecting a present neighbor shortens the occupied slots by
    /// exactly one and removes exactly one occurrence of that neighbor from
    /// the occupied multiset; when the occupied slots are duplicate-free the
    /// occupied set becomes the original set minus that neighbor. `pre` and
    /// `post` are a node's occupied slots before and after `disconnect`.
    pub proof fn lemma_disconnect_removes_neighbor(pre: Seq<MSize>, post: Seq<MSize>, target: MSize)
        requires
            pre.contains(target),
            post == pre.update(pre.index_of_first(target).unwrap(), pre.last()).drop_last(),
        ensures
            post.len() == pre.len() - 1,
            post.to_multiset() == pre.to_multiset().remove(target),
            pre.no_duplicates() ==> post.to_set() =~= pre.to_set().remove(target),
    {
        broadcast use vstd::multiset::group_multiset_axioms;

        pre.index_of_first_ensures(target);
        let i = pre.index_of_first(target).unwrap();
        let n = pre.len() as int;
        vstd::seq_lib::to_multiset_remove(pre, i);
        if i == n - 1 {
            assert(post =~= pre.remove(i));
        } else {
            let a = pre.subrange(0, i);
            let b = pre.subrange(i + 1, n - 1);
            let last = pre.last();
            assert(post =~= (a + seq![last]) + b);
            assert(pre.remove(i) =~= (a + b).push(last));
            assert(pre.remove(i) =~= a + (b + seq![last]));
            vstd::seq_lib::lemma_multiset_commutative(a + seq![last], b);
            vstd::seq_lib::lemma_multiset_commutative(a, seq![last]);
            vstd::seq_lib::lemma_multiset_commutative(a, b + seq![last]);
            vstd::seq_lib::lemma_multiset_commutative(b, seq![last]);
            assert(post.to_multiset() =~= pre.remove(i).to_multiset());
        }
        if pre.no_duplicates() {
            pre.lemma_multiset_has_no_duplicates();
            pre.to_multiset_ensures();
            post.to_multiset_ensures();
            assert forall|x: MSize| post.to_set().contains(x) implies pre.to_set().remove(
                target,
            ).contains(x) by {
                assert(post.contains(x));
                assert(post.to_multiset().count(x) > 0);
                assert(pre.to_multiset().count(x) > 0);
                assert(pre.contains(x));
                assert(pre.to_set().contains(x));
                if x == target {
                    assert(pre.to_multiset().count(target) == 1);
                    assert(post.to_multiset().count(target) == 0);
                }
            };
            assert forall|x: MSize| pre.to_set().remove(target).contains(x) implies post.to_set().contains(
                x,
            ) by {
                assert(pre.contains(x));
                assert(pre.to_multiset().count(x) > 0);
                assert(x != target);
                assert(post.to_multiset().count(x) == pre.to_multiset().count(x));
                assert(post.contains(x));
            };
        }
    }

    /// The occupied neighbor handles of a node, in slot order. Always
    /// succeeds on a valid handle; invalid handles are ruled out by
    /// precondition.
    #[verifier::loop_isolation(false)]
    pub fn edges(&self, edge_handle: EdgeHandle) -> (r: Result<Vec<EdgeHandle>, Error>)
        requires
            self.wf(),
            self.valid(edge_handle),
        ensures
            r matches Ok(v) && v@.map_values(|e: EdgeHandle| e.0) == self.nbrs(edge_handle.0),
    {
        proof {
            self.lemma_valid_bounds(edge_handle.0);
            self.lemma_buf_len();
        }
        let o = edge_handle.0;
        let len = self.edges[o];
        let mut out: Vec<EdgeHandle> = Vec::new();
        let mut s: usize = 0;
        while s < len
            invariant
                s <= len,
                out@.len() == s,
                forall|j: int| 0 <= j < s ==> (#[trigger] out@[j]).0 == self.nbrs(o)[j],
            decreases len - s,
        {
            out.push(EdgeHandle(self.edges[o + HEADER_UNITS + s]));
            s += 1;
        }
        proof {
            assert(out@.map_values(|e: EdgeHandle| e.0) =~= self.nbrs(o));
        }
        Ok(out)
    }

    /// Bumps the node's traversal generation marker by one.
    pub(crate) fn inc_visited_flag(&mut self, edge_handle: EdgeHandle)
        requires
            old(self).wf(),
            old(self).valid(edge_handle),
            old(self).node_visited(edge_handle.0) < usize::MAX,
        ensures
            final(self).wf(),
            final(self).recs() == old(self).recs(),
            final(self).buf().len() == old(self).buf().len(),
            final(self).base_reserve() == old(self).base_reserve(),
            final(self).visited_gen() == old(self).visited_gen(),
            final(self).node_len(edge_handle.0) == old(self).node_len(edge_handle.0),
            final(self).node_reserve(edge_handle.0) == old(self).node_reserve(edge_handle.0),
            final(self).node_visited(edge_handle.0) == old(self).node_visited(edge_handle.0) + 1,
            final(self).node_vertex(edge_handle.0) == old(self).node_vertex(edge_handle.0),
            final(self).nbrs(edge_handle.0) == old(self).nbrs(edge_handle.0),
            forall|s: int|
                0 <= s < old(self).node_reserve(edge_handle.0) ==> final(self).node_slot(
                    edge_handle.0,
                    s,
                ) == old(self).node_slot(edge_handle.0, s),
            forall|p: MSize|
                old(self).valid_off(p) && p != edge_handle.0 ==> #[trigger] node_same(
                    *old(self),
                    *final(self),
                    p,
                ),
    {
        proof {
            self.lemma_valid_bounds(edge_handle.0);
            self.lemma_buf_len();
        }
        let o = edge_handle.0;
        let flag = self.edges[o + 2];
        self.edges[o + 2] = flag + 1;
        proof {
            let pre = *old(self);
            lemma_frame(pre, *self, o, set![o as int + 2]);
            assert(self.nbrs(o) =~= pre.nbrs(o));
        }
    }

    /// Reads the node's traversal generation marker.
    pub(crate) fn visited_flag(&self, edge_handle: EdgeHandle) -> (r: MSize)
        requires
            self.wf(),
            self.valid(edge_handle),
        ensures
            r as int == self.node_visited(edge_handle.0),
    {
        proof {
            self.lemma_valid_bounds(edge_handle.0);
            self.lemma_buf_len();
        }
        self.edges[edge_handle.0 + 2]
    }

    /// Overwrites the arena's pass-generation value.
    pub(crate) fn set_visited_val(&mut self, val: MSize)
        ensures
            final(self).buf() == old(self).buf(),
            final(self).recs() == old(self).recs(),
            final(self).base_reserve() == old(self).base_reserve(),
            final(self).visited_gen() == val as int,
    {
        self.visited_val = val;
    }

    /// Reads the arena's pass-generation value.
    pub(crate) fn visited_val(&self) -> (r: MSize)
        ensures
            r as int == self.visited_gen(),
    {
        self.visited_val
    }

    /// Overwrites the node's traversal generation marker.
    pub(crate) fn set_visited_flag(&mut self, edge_handle: EdgeHandle, val: MSize)
        requires
            old(self).wf(),
            old(self).valid(edge_handle),
        ensures
            final(self).wf(),
            final(self).recs() == old(self).recs(),
            final(self).buf().len() == old(self).buf().len(),
            final(self).base_reserve() == old(self).base_reserve(),
            final(self).visited_gen() == old(self).visited_gen(),
            final(self).node_len(edge_handle.0) == old(self).node_len(edge_handle.0),
            final(self).node_reserve(edge_handle.0) == old(self).node_reserve(edge_handle.0),
            final(self).node_visited(edge_handle.0) == val,
            final(self).node_vertex(edge_handle.0) == old(self).node_vertex(edge_handle.0),
            final(self).nbrs(edge_handle.0) == old(self).nbrs(edge_handle.0),
            forall|p: MSize|
                old(self).valid_off(p) && p != edge_handle.0 ==> #[trigger] node_same(
                    *old(self),
                    *final(self),
                    p,
                ),
    {
        proof {
            self.lemma_valid_bounds(edge_handle.0);
            self.lemma_buf_len();
        }
        let o = edge_handle.0;
        self.edges[o + 2] = val;
        proof {
            let pre = *old(self);
            lemma_frame(pre, *self, o, set![o as int + 2]);
            assert(self.nbrs(o) =~= pre.nbrs(o));
        }
    }
}

/// Every occupied slot of every node names a valid record.
pub open spec fn closed_graph(ed: EdgeData) -> bool {
    forall|o: MSize, s: int|
        ed.valid_off(o) && 0 <= s < ed.node_len(o) ==> ed.valid_off(#[trigger] ed.node_slot(o, s))
}

/// The adjacency forms a tree hanging from `start`: no occupied slot names
/// `start`, and no two distinct slot occurrences name the same node.
pub open spec fn tree_shaped(ed: EdgeData, start: MSize) -> bool {
    &&& forall|o: MSize, s: int|
        ed.valid_off(o) && 0 <= s < ed.node_len(o) ==> #[trigger] ed.node_slot(o, s) != start
    &&& forall|o1: MSize, s1: int, o2: MSize, s2: int|
        #![trigger ed.node_slot(o1, s1), ed.node_slot(o2, s2)]
        ed.valid_off(o1) && ed.valid_off(o2) && 0 <= s1 < ed.node_len(o1) && 0 <= s2
            < ed.node_len(o2) && ed.node_slot(o1, s1) == ed.node_slot(o2, s2) ==> o1 == o2 && s1
            == s2
}

/// One directed edge from `a` to `b`.
pub open spec fn steps_to(ed: EdgeData, a: MSize, b: MSize) -> bool {
    exists|s: int| 0 <= s < ed.node_len(a) && ed.node_slot(a, s) == b
}

/// `b` lies within `k` edge steps of `a`.
pub open spec fn reachable_k(ed: EdgeData, a: MSize, b: MSize, k: nat) -> bool
    decreases k,
{
    a == b || (k > 0 && exists|m: MSize|
        #[trigger] steps_to(ed, a, m) && reachable_k(ed, m, b, (k - 1) as nat))
}

/// Every valid node is reachable from `start`.
pub open spec fn connected_from(ed: EdgeData, start: MSize) -> bool {
    forall|o: MSize| #[trigger] ed.valid_off(o) ==> exists|k: nat| reachable_k(ed, start, o, k)
}

/// No node's generation marker equals the arena's current pass value: the
/// state a fresh arena starts in and a complete traversal leaves behind.
pub open spec fn clean(ed: EdgeData) -> bool {
    forall|o: MSize| #[trigger] ed.valid_off(o) ==> ed.node_visited(o) != ed.visited_gen()
}

/// Every generation marker has room to grow by one without overflowing.
pub open spec fn marker_headroom(ed: EdgeData) -> bool {
    forall|o: MSize| #[trigger] ed.valid_off(o) ==> ed.node_visited(o) < usize::MAX
}

/// Records, headers and slots all unchanged; only the generation markers and
/// the pass counter may differ between the two arena states.
pub open spec fn same_structure(pre: EdgeData, post: EdgeData) -> bool {
    &&& post.recs() == pre.recs()
    &&& post.buf().len() == pre.buf().len()
    &&& post.base_reserve() == pre.base_reserve()
    &&& forall|o: MSize| #[trigger] pre.valid_off(o) ==> {
        &&& post.node_len(o) == pre.node_len(o)
        &&& post.node_reserve(o) == pre.node_reserve(o)
        &&& post.node_vertex(o) == pre.node_vertex(o)
        &&& (forall|s: int|
            0 <= s < pre.node_reserve(o) ==> post.node_slot(o, s) == pre.node_slot(o, s))
    }
}

/// The edge-handle offsets of a visit sequence, in visit order.
pub open spec fn visit_offs(visited: Seq<Handle>) -> Seq<MSize> {
    visited.map_values(|h: Handle| h.edge_handle.0)
}

/// The order a FIFO traversal visits nodes in, defined over the arena alone:
/// dequeue the queue's front node, then enqueue its occupied slots in slot
/// order. `fuel` bounds the recursion; a pass that visits each node at most
/// once never exhausts a fuel of the whole record count.
pub open spec fn fifo_order(ed: EdgeData, queue: Seq<MSize>, fuel: nat) -> Seq<MSize>
    decreases fuel,
{
    if queue.len() == 0 || fuel == 0 {
        Seq::<MSize>::empty()
    } else {
        seq![queue[0]] + fifo_order(ed, queue.drop_first() + ed.nbrs(queue[0]), (fuel - 1) as nat)
    }
}

/// Whether the pass that turned `pre` into `post` and returned `visited` was
/// cut short by the visitor: exactly an early-ended pass leaves the last
/// visited node's generation marker untouched.
pub open spec fn pass_ended_early(pre: EdgeData, post: EdgeData, visited: Seq<Handle>) -> bool
    recommends
        visited.len() >= 1,
{
    post.node_visited(visited.last().edge_handle.0) == pre.node_visited(
        visited.last().edge_handle.0,
    )
}

/// The nodes whose generation markers one pass bumped: every visited node
/// that answered `Continue`, which is all of them unless the pass was ended
/// early by the last one.
pub open spec fn marked_by_pass(pre: EdgeData, post: EdgeData, visited: Seq<Handle>) -> Seq<
    MSize,
> {
    if pass_ended_early(pre, post, visited) {
        visit_offs(visited).drop_last()
    } else {
        visit_offs(visited)
    }
}

/// Reachability survives a pass that changes only generation markers.
proof fn lemma_reachable_same_structure(pre: EdgeData, post: EdgeData, a: MSize, b: MSize, k: nat)
    requires
        same_structure(pre, post),
        pre.wf(),
        closed_graph(pre),
        pre.valid_off(a),
        reachable_k(pre, a, b, k),
    ensures
        reachable_k(post, a, b, k),
    decreases k,
{
    if a != b && k > 0 {
        let m = choose|m: MSize|
            #[trigger] steps_to(pre, a, m) && reachable_k(pre, m, b, (k - 1) as nat);
        let s = choose|s: int| 0 <= s < pre.node_len(a) && pre.node_slot(a, s) == m;
        pre.lemma_valid_bounds(a);
        assert(post.node_slot(a, s) == pre.node_slot(a, s));
        assert(steps_to(post, a, m));
        assert(pre.valid_off(pre.node_slot(a, s)));
        lemma_reachable_same_structure(pre, post, m, b, (k - 1) as nat);
    }
}

/// Law: a traversal pass touches only generation markers, so the graph's
/// shape carries over: well-formedness, slot validity, tree shape and
/// connectivity all hold of the new state whenever they held of the old one.
/// With this a second traversal of the same unmodified graph starts from the
/// same footing as the first.
pub proof fn lemma_same_structure_preserves_shape(pre: EdgeData, post: EdgeData, start: MSize)
    requires
        pre.wf(),
        same_structure(pre, post),
    ensures
        post.wf(),
        closed_graph(pre) ==> closed_graph(post),
        tree_shaped(pre, start) ==> tree_shaped(post, start),
        closed_graph(pre) && pre.valid_off(start) && connected_from(pre, start)
            ==> connected_from(post, start),
{
    assert forall|i: int| 0 <= i < post.recs().len() implies #[trigger] post.record_wf(i) by {
        assert(pre.record_wf(i));
        let o = pre.recs()[i];
        assert(pre.recs().contains(o));
        assert(pre.valid_off(o));
    };
    if closed_graph(pre) {
        assert forall|o: MSize, s: int|
            post.valid_off(o) && 0 <= s < post.node_len(o) implies post.valid_off(
            #[trigger] post.node_slot(o, s),
        ) by {
            assert(pre.valid_off(o));
            pre.lemma_valid_bounds(o);
            assert(post.node_slot(o, s) == pre.node_slot(o, s));
            assert(pre.valid_off(pre.node_slot(o, s)));
        };
    }
    if tree_shaped(pre, start) {
        assert forall|o: MSize, s: int|
            post.valid_off(o) && 0 <= s < post.node_len(o) implies #[trigger] post.node_slot(o, s)
            != start by {
            assert(pre.valid_off(o));
            pre.lemma_valid_bounds(o);
            assert(post.node_slot(o, s) == pre.node_slot(o, s));
            assert(pre.node_slot(o, s) != start);
        };
        assert forall|o1: MSize, s1: int, o2: MSize, s2: int|
            #![trigger post.node_slot(o1, s1), post.node_slot(o2, s2)]
            post.valid_off(o1) && post.valid_off(o2) && 0 <= s1 < post.node_len(o1) && 0 <= s2
                < post.node_len(o2) && post.node_slot(o1, s1) == post.node_slot(
                o2,
                s2,
            ) implies o1 == o2 && s1 == s2 by {
            assert(pre.valid_off(o1));
            assert(pre.valid_off(o2));
            pre.lemma_valid_bounds(o1);
            pre.lemma_valid_bounds(o2);
            assert(pre.node_slot(o1, s1) == post.node_slot(o1, s1));
            assert(pre.node_slot(o2, s2) == post.node_slot(o2, s2));
        };
    }
    if closed_graph(pre) && pre.valid_off(start) && connected_from(pre, start) {
        assert forall|o: MSize| #[trigger] post.valid_off(o) implies exists|k: nat|
            reachable_k(post, start, o, k) by {
            assert(pre.valid_off(o));
            let k = choose|k: nat| reachable_k(pre, start, o, k);
            lemma_reachable_same_structure(pre, post, start, o, k);
        };
    }
}

/// A node closed set that contains `a` contains everything reachable from it.
proof fn lemma_reachable_closed(ed: EdgeData, a: MSize, vis: Seq<MSize>, o: MSize, k: nat)
    requires
        vis.contains(a),
        forall|x: MSize, s: int|
            vis.contains(x) && 0 <= s < ed.node_len(x) ==> vis.contains(
                #[trigger] ed.node_slot(x, s),
            ),
        reachable_k(ed, a, o, k),
    ensures
        vis.contains(o),
    decreases k,
{
    if a != o && k > 0 {
        let m = choose|m: MSize| #[trigger] steps_to(ed, a, m) && reachable_k(ed, m, o, (k - 1) as nat);
        let s = choose|s: int| 0 <= s < ed.node_len(a) && ed.node_slot(a, s) == m;
        assert(vis.contains(ed.node_slot(a, s)));
        lemma_reachable_closed(ed, m, vis, o, (k - 1) as nat);
    }
}

/// A duplicate-free sequence of valid offsets is no longer than the record
/// list itself.
proof fn lemma_distinct_valid_le(ed: EdgeData, xs: Seq<MSize>)
    requires
        xs.no_duplicates(),
        forall|j: int| 0 <= j < xs.len() ==> ed.valid_off(#[trigger] xs[j]),
    ensures
        xs.len() <= ed.recs().len(),
{
    assert forall|x: MSize| xs.to_set().contains(x) implies ed.recs().to_set().contains(x) by {
        assert(ed.recs().contains(x));
        let i = choose|i: int| 0 <= i < ed.recs().len() && ed.recs()[i] == x;
        assert(ed.recs().to_set().contains(ed.recs()[i]));
    };
    xs.unique_seq_to_set();
    ed.recs().lemma_cardinality_of_set();
    vstd::set_lib::lemma_len_subset(xs.to_set(), ed.recs().to_set());
}

/// The graph facade: one vertex store and one edge arena, created together.
/// Node `i`'s record header names vertex `i`, so a handle resolves both ways.
pub struct Graph<T> {
    pub vertices: Vertices<T>,
    pub edges: EdgeData,
}

impl<T> Graph<T> {
    /// Nodes and vertices correspond one to one, in creation order.
    pub open spec fn wf(self) -> bool {
        &&& self.edges.wf()
        &&& self.edges.recs().len() == self.vertices.vals().len()
        &&& forall|i: int|
            0 <= i < self.edges.recs().len() ==> self.edges.node_vertex(
                #[trigger] self.edges.recs()[i],
            ) == i
    }

    /// Creates a graph for dynamic use, with a default reserve of 50
    /// neighbor slots per node to avoid re-planning capacity.
    pub fn new_large() -> (r: Self)
        ensures
            r.wf(),
            r.vertices.vals() =~= Seq::<T>::empty(),
            r.edges.recs() =~= Seq::<MSize>::empty(),
            r.edges.buf().len() == 0,
            r.edges.base_reserve() == 50,
            r.edges.visited_gen() == 1,
    {
        Graph { edges: EdgeData::new_dyn(), vertices: Vertices::new() }
    }

    /// Creates a graph with a caller-chosen default reserve per node.
    pub fn with_reserve(reserve: usize) -> (r: Self)
        ensures
            r.wf(),
            r.vertices.vals() =~= Seq::<T>::empty(),
            r.edges.recs() =~= Seq::<MSize>::empty(),
            r.edges.buf().len() == 0,
            r.edges.base_reserve() == reserve,
            r.edges.visited_gen() == 1,
    {
        Graph { edges: EdgeData::with_reserve(reserve), vertices: Vertices::new() }
    }

    /// Creates a graph whose shape is known ahead of time: no default
    /// reserve, every neighbor slot requested explicitly at creation.
    pub fn new() -> (r: Self)
        ensures
            r.wf(),
            r.vertices.vals() =~= Seq::<T>::empty(),
            r.edges.recs() =~= Seq::<MSize>::empty(),
            r.edges.buf().len() == 0,
            r.edges.base_reserve() == 0,
            r.edges.visited_gen() == 1,
    {
        Graph { edges: EdgeData::new(), vertices: Vertices::new() }
    }

    /// Creates a node: pushes the payload and appends its arena record with
    /// `base_reserve + edge_count` neighbor slots. Every existing node keeps
    /// its handle, payload, header and slots.
    pub fn create(&mut self, val: T, edge_count: usize) -> (r: Handle)
        requires
            old(self).wf(),
            old(self).edges.buf().len() + 4 + old(self).edges.base_reserve() + edge_count
                <= usize::MAX,
        ensures
            final(self).wf(),
            r.vertex_handle.0 == old(self).vertices.vals().len(),
            r.edge_handle.0 == old(self).edges.buf().len(),
            final(self).edges.valid(r.edge_handle),
            final(self).vertices.vals() == old(self).vertices.vals().push(val),
            final(self).edges.recs() == old(self).edges.recs().push(r.edge_handle.0),
            final(self).edges.buf().len() == old(self).edges.buf().len() + 4 + old(
                self,
            ).edges.base_reserve() + edge_count,
            final(self).edges.node_len(r.edge_handle.0) == 0,
            final(self).edges.node_reserve(r.edge_handle.0) == old(self).edges.base_reserve()
                + edge_count,
            final(self).edges.node_visited(r.edge_handle.0) == 0,
            final(self).edges.node_vertex(r.edge_handle.0) == r.vertex_handle.0,
            final(self).edges.nbrs(r.edge_handle.0) == Seq::<MSize>::empty(),
            forall|p: MSize| old(self).edges.valid_off(p) ==> final(self).edges.valid_off(p),
            forall|p: MSize|
                old(self).edges.valid_off(p) ==> #[trigger] node_same(
                    old(self).edges,
                    final(self).edges,
                    p,
                ),
            final(self).edges.base_reserve() == old(self).edges.base_reserve(),
            final(self).edges.visited_gen() == old(self).edges.visited_gen(),
    {
        self.vertices.push(val);
        let vertex_handle = VertexHandle(self.vertices.len() - 1);
        let edge_handle = self.edges.create_edges_entry(edge_count, vertex_handle);
        proof {
            let pre = *old(self);
            assert forall|i: int|
                0 <= i < self.edges.recs().len() implies self.edges.node_vertex(
                #[trigger] self.edges.recs()[i],
            ) == i by {
                if i < pre.edges.recs().len() {
                    let p = pre.edges.recs()[i];
                    assert(pre.edges.recs().contains(p));
                    assert(node_same(pre.edges, self.edges, p));
                } else {
                    assert(self.edges.recs()[i] == edge_handle.0);
                }
            };
        }
        Handle { edge_handle, vertex_handle }
    }

    /// Creates a node and immediately connects `src_edge_handle` to it.
    pub fn create_and_connect(&mut self, src_edge_handle: EdgeHandle, val: T, edge_count: usize)
        -> (r: Handle)
        requires
            old(self).wf(),
            old(self).edges.valid(src_edge_handle),
            old(self).edges.node_len(src_edge_handle.0) < old(self).edges.node_reserve(
                src_edge_handle.0,
            ),
            old(self).edges.buf().len() + 4 + old(self).edges.base_reserve() + edge_count
                <= usize::MAX,
        ensures
            final(self).wf(),
            r.vertex_handle.0 == old(self).vertices.vals().len(),
            r.edge_handle.0 == old(self).edges.buf().len(),
            r.edge_handle.0 != src_edge_handle.0,
            final(self).edges.valid(r.edge_handle),
            final(self).vertices.vals() == old(self).vertices.vals().push(val),
            final(self).edges.recs() == old(self).edges.recs().push(r.edge_handle.0),
            final(self).edges.buf().len() == old(self).edges.buf().len() + 4 + old(
                self,
            ).edges.base_reserve() + edge_count,
            final(self).edges.node_len(r.edge_handle.0) == 0,
            final(self).edges.node_reserve(r.edge_handle.0) == old(self).edges.base_reserve()
                + edge_count,
            final(self).edges.node_visited(r.edge_handle.0) == 0,
            final(self).edges.node_vertex(r.edge_handle.0) == r.vertex_handle.0,
            final(self).edges.nbrs(r.edge_handle.0) == Seq::<MSize>::empty(),
            final(self).edges.node_len(src_edge_handle.0) == old(self).edges.node_len(
                src_edge_handle.0,
            ) + 1,
            final(self).edges.node_reserve(src_edge_handle.0) == old(self).edges.node_reserve(
                src_edge_handle.0,
            ),
            final(self).edges.node_visited(src_edge_handle.0) == old(self).edges.node_visited(
                src_edge_handle.0,
            ),
            final(self).edges.node_vertex(src_edge_handle.0) == old(self).edges.node_vertex(
                src_edge_handle.0,
            ),
            final(self).edges.nbrs(src_edge_handle.0) == old(self).edges.nbrs(
                src_edge_handle.0,
            ).push(r.edge_handle.0),
            forall|p: MSize| old(self).edges.valid_off(p) ==> final(self).edges.valid_off(p),
            forall|p: MSize|
                old(self).edges.valid_off(p) && p != src_edge_handle.0 ==> #[trigger] node_same(
                    old(self).edges,
                    final(self).edges,
                    p,
                ),
            final(self).edges.base_reserve() == old(self).edges.base_reserve(),
            final(self).edges.visited_gen() == old(self).edges.visited_gen(),
    {
        proof {
            old(self).edges.lemma_valid_bounds(src_edge_handle.0);
        }
        let new_handle = self.create(val, edge_count);
        let ghost mid = *self;
        proof {
            assert(node_same(old(self).edges, mid.edges, src_edge_handle.0));
            lemma_node_same_nbrs(old(self).edges, mid.edges, src_edge_handle.0);
        }
        self.edges.connect(src_edge_handle, new_handle.edge_handle);
        proof {
            assert forall|p: MSize|
                old(self).edges.valid_off(p) && p != src_edge_handle.0 implies #[trigger] node_same(
                old(self).edges,
                self.edges,
                p,
            ) by {
                assert(node_same(old(self).edges, mid.edges, p));
                assert(node_same(mid.edges, self.edges, p));
                lemma_node_same_trans(old(self).edges, mid.edges, self.edges, p);
            };
            assert(node_same(mid.edges, self.edges, new_handle.edge_handle.0));
            lemma_node_same_nbrs(mid.edges, self.edges, new_handle.edge_handle.0);
            assert forall|i: int|
                0 <= i < self.edges.recs().len() implies self.edges.node_vertex(
                #[trigger] self.edges.recs()[i],
            ) == i by {
                let p = mid.edges.recs()[i];
                assert(mid.edges.recs().contains(p));
                assert(mid.edges.node_vertex(p) == i);
                if p != src_edge_handle.0 {
                    assert(node_same(mid.edges, self.edges, p));
                }
            };
        }
        new_handle
    }

    /// Creates a leaf node (no extra capacity) and connects `src_edge_handle`
    /// to it.
    pub fn create_and_connect_leaf(&mut self, src_edge_handle: EdgeHandle, val: T) -> (r: Handle)
        requires
            old(self).wf(),
            old(self).edges.valid(src_edge_handle),
            old(self).edges.node_len(src_edge_handle.0) < old(self).edges.node_reserve(
                src_edge_handle.0,
            ),
            old(self).edges.buf().len() + 4 + old(self).edges.base_reserve() <= usize::MAX,
        ensures
            final(self).wf(),
            r.vertex_handle.0 == old(self).vertices.vals().len(),
            r.edge_handle.0 == old(self).edges.buf().len(),
            r.edge_handle.0 != src_edge_handle.0,
            final(self).edges.valid(r.edge_handle),
            final(self).vertices.vals() == old(self).vertices.vals().push(val),
            final(self).edges.recs() == old(self).edges.recs().push(r.edge_handle.0),
            final(self).edges.buf().len() == old(self).edges.buf().len() + 4 + old(
                self,
            ).edges.base_reserve(),
            final(self).edges.node_len(r.edge_handle.0) == 0,
            final(self).edges.node_reserve(r.edge_handle.0) == old(self).edges.base_reserve(),
            final(self).edges.node_visited(r.edge_handle.0) == 0,
            final(self).edges.node_vertex(r.edge_handle.0) == r.vertex_handle.0,
            final(self).edges.nbrs(r.edge_handle.0) == Seq::<MSize>::empty(),
            final(self).edges.node_len(src_edge_handle.0) == old(self).edges.node_len(
                src_edge_handle.0,
            ) + 1,
            final(self).edges.node_reserve(src_edge_handle.0) == old(self).edges.node_reserve(
                src_edge_handle.0,
            ),
            final(self).edges.node_visited(src_edge_handle.0) == old(self).edges.node_visited(
                src_edge_handle.0,
            ),
            final(self).edges.node_vertex(src_edge_handle.0) == old(self).edges.node_vertex(
                src_edge_handle.0,
            ),
            final(self).edges.nbrs(src_edge_handle.0) == old(self).edges.nbrs(
                src_edge_handle.0,
            ).push(r.edge_handle.0),
            forall|p: MSize| old(self).edges.valid_off(p) ==> final(self).edges.valid_off(p),
            forall|p: MSize|
                old(self).edges.valid_off(p) && p != src_edge_handle.0 ==> #[trigger] node_same(
                    old(self).edges,
                    final(self).edges,
                    p,
                ),
            final(self).edges.base_reserve() == old(self).edges.base_reserve(),
            final(self).edges.visited_gen() == old(self).edges.visited_gen(),
    {
        self.create_and_connect(src_edge_handle, val, 0)
    }

    /// The owning vertex of a valid record is always in range.
    pub proof fn lemma_vertex_in_range(self, o: MSize)
        requires
            self.wf(),
            self.edges.valid_off(o),
        ensures
            0 <= self.edges.node_vertex(o) < self.vertices.vals().len(),
    {
        let i = choose|i: int| 0 <= i < self.edges.recs().len() && self.edges.recs()[i] == o;
        assert(self.edges.node_vertex(self.edges.recs()[i]) == i);
    }

    /// Reinterprets this graph's storage as a tree view.
    pub fn tree_view(self) -> (r: TreeView<T>)
        ensures
            r.nodes == self.edges,
            r.values == self.vertices,
    {
        TreeView::new(self.edges, self.vertices)
    }

    /// Creates a node with no extra neighbor capacity beyond the default.
    pub fn create_leaf(&mut self, val: T) -> (r: Handle)
        requires
            old(self).wf(),
            old(self).edges.buf().len() + 4 + old(self).edges.base_reserve() <= usize::MAX,
        ensures
            final(self).wf(),
            r.vertex_handle.0 == old(self).vertices.vals().len(),
            r.edge_handle.0 == old(self).edges.buf().len(),
            final(self).edges.valid(r.edge_handle),
            final(self).vertices.vals() == old(self).vertices.vals().push(val),
            final(self).edges.recs() == old(self).edges.recs().push(r.edge_handle.0),
            final(self).edges.buf().len() == old(self).edges.buf().len() + 4 + old(
                self,
            ).edges.base_reserve(),
            final(self).edges.node_len(r.edge_handle.0) == 0,
            final(self).edges.node_reserve(r.edge_handle.0) == old(self).edges.base_reserve(),
            final(self).edges.node_visited(r.edge_handle.0) == 0,
            final(self).edges.node_vertex(r.edge_handle.0) == r.vertex_handle.0,
            final(self).edges.nbrs(r.edge_handle.0) == Seq::<MSize>::empty(),
            forall|p: MSize| old(self).edges.valid_off(p) ==> final(self).edges.valid_off(p),
            forall|p: MSize|
                old(self).edges.valid_off(p) ==> #[trigger] node_same(
                    old(self).edges,
                    final(self).edges,
                    p,
                ),
            final(self).edges.base_reserve() == old(self).edges.base_reserve(),
            final(self).edges.visited_gen() == old(self).edges.visited_gen(),
    {
        self.create(val, 0)
    }
}

impl<T: Copy> Graph<T> {
    /// Breadth-first traversal from `start`, calling `traverse` on each
    /// dequeued node's payload and handle. `Continue` marks the node
    /// processed (bumping its generation marker) and enqueues its neighbors
    /// whose marker differs from the pass value; `End` stops dequeuing at
    /// once and discards the rest of the queue. Either way the pass value is
    /// reset to zero afterwards. Returns the visited nodes, in visit order:
    /// a prefix of the FIFO order `fifo_order`, and the whole of it when the
    /// pass was not ended early. On a tree each node appears at most once,
    /// exactly the `Continue`-answering visited nodes get their marker
    /// bumped, and if the visitor always continues, a clean, connected tree
    /// is visited completely.
    ///
    /// A pass ended early leaves unvisited markers untouched; with the pass
    /// value fixed at zero on return, markers that are themselves zero then
    /// violate `clean`, so a fresh traversal after an early exit is only
    /// possible where the untouched markers differ from zero.
    #[verifier::loop_isolation(false)]
    #[verifier::rlimit(100)]
    pub fn bfs<F: Fn(T, Handle) -> TraverseResult>(&mut self, start: EdgeHandle, traverse: F)
        -> (visited: Vec<Handle>)
        requires
            old(self).wf(),
            old(self).edges.valid(start),
            closed_graph(old(self).edges),
            tree_shaped(old(self).edges, start.0),
            clean(old(self).edges),
            marker_headroom(old(self).edges),
            old(self).edges.visited_gen() < usize::MAX,
            forall|v: T, h: Handle| call_requires(traverse, (v, h)),
        ensures
            final(self).wf(),
            same_structure(old(self).edges, final(self).edges),
            final(self).vertices == old(self).vertices,
            final(self).edges.visited_gen() == 0,
            visited@.len() >= 1,
            visited@[0].edge_handle.0 == start.0,
            forall|j: int|
                0 <= j < visited@.len() ==> old(self).edges.valid_off(
                    (#[trigger] visited@[j]).edge_handle.0,
                ) && visited@[j].vertex_handle.0 == old(self).edges.node_vertex(
                    visited@[j].edge_handle.0,
                ),
            forall|j1: int, j2: int|
                0 <= j1 < j2 < visited@.len() ==> (#[trigger] visited@[j1]).edge_handle.0 != (
                #[trigger] visited@[j2]).edge_handle.0,
            forall|o: MSize|
                #[trigger] old(self).edges.valid_off(o) ==> final(self).edges.node_visited(o)
                    == old(self).edges.node_visited(o) + (
                if marked_by_pass(old(self).edges, final(self).edges, visited@).contains(o) {
                    1int
                } else {
                    0int
                }),
            visit_offs(visited@).is_prefix_of(
                fifo_order(old(self).edges, seq![start.0], old(self).edges.recs().len()),
            ),
            !pass_ended_early(old(self).edges, final(self).edges, visited@) ==> visit_offs(
                visited@,
            ) == fifo_order(old(self).edges, seq![start.0], old(self).edges.recs().len()),
            pass_ended_early(old(self).edges, final(self).edges, visited@) ==> call_ensures(
                traverse,
                (
                    old(self).vertices.vals()[old(self).edges.node_vertex(
                        visited@.last().edge_handle.0,
                    )],
                    visited@.last(),
                ),
                TraverseResult::End,
            ),
            !pass_ended_early(old(self).edges, final(self).edges, visited@) ==> forall|
                j: int,
                s: int,
            |
                0 <= j < visited@.len() && 0 <= s < old(self).edges.node_len(
                    visited@[j].edge_handle.0,
                ) ==> visit_offs(visited@).contains(
                    #[trigger] old(self).edges.node_slot(visited@[j].edge_handle.0, s),
                ),
            forall|j: int|
                0 <= j < visited@.len() - 1 ==> call_ensures(
                    traverse,
                    (
                        old(self).vertices.vals()[old(self).edges.node_vertex(
                            (#[trigger] visited@[j]).edge_handle.0,
                        )],
                        visited@[j],
                    ),
                    TraverseResult::Continue,
                ),
            (forall|v: T, h: Handle, y: TraverseResult|
                call_ensures(traverse, (v, h), y) ==> y == TraverseResult::Continue) ==> {
                &&& forall|o: MSize|
                    #[trigger] old(self).edges.valid_off(o) && connected_from(
                        old(self).edges,
                        start.0,
                    ) ==> exists|j: int|
                        0 <= j < visited@.len() && visited@[j].edge_handle.0 == o
                &&& connected_from(old(self).edges, start.0) ==> clean(final(self).edges)
            },
    {
        let ghost pre = old(self).edges;
        let start_handle = self.edges.handle_from_edge_handle(start);
        let mut nodes: VecDeque<Handle> = VecDeque::new();
        nodes.push_back(start_handle);
        let mut visited: Vec<Handle> = Vec::new();
        let ghost mut bumped: Seq<MSize> = Seq::<MSize>::empty();
        let ghost mut qoffs: Seq<MSize> = seq![start.0];
        let ghost mut consumed: Set<(MSize, int)> = Set::<(MSize, int)>::empty();
        let ghost mut ended: bool = false;
        let mut running = true;
        proof {
            assert(bumped + qoffs =~= seq![start.0]);
            assert(bumped + fifo_order(pre, qoffs, pre.recs().len()) =~= fifo_order(
                pre,
                seq![start.0],
                pre.recs().len(),
            ));
        }
        while running
            invariant
                self.wf(),
                same_structure(pre, self.edges),
                self.vertices == old(self).vertices,
                !ended ==> self.edges.visited_gen() == pre.visited_gen(),
                running ==> nodes@.len() >= 1,
                !running ==> ended || nodes@.len() == 0,
                running ==> !ended,
                qoffs.len() == nodes@.len(),
                forall|j: int| 0 <= j < qoffs.len() ==> #[trigger] qoffs[j] == nodes@[j].edge_handle.0,
                forall|j: int|
                    0 <= j < nodes@.len() ==> pre.valid_off(
                        (#[trigger] nodes@[j]).edge_handle.0,
                    ) && nodes@[j].vertex_handle.0 == pre.node_vertex(nodes@[j].edge_handle.0),
                forall|j: int|
                    0 <= j < visited@.len() ==> pre.valid_off(
                        (#[trigger] visited@[j]).edge_handle.0,
                    ) && visited@[j].vertex_handle.0 == pre.node_vertex(
                        visited@[j].edge_handle.0,
                    ),
                forall|o: MSize|
                    #[trigger] pre.valid_off(o) ==> self.edges.node_visited(o)
                        == pre.node_visited(o) + (if bumped.contains(o) {
                        1int
                    } else {
                        0int
                    }),
                (bumped + qoffs).no_duplicates(),
                forall|j: int| 0 <= j < bumped.len() ==> pre.valid_off(#[trigger] bumped[j]),
                bumped.len() <= pre.recs().len(),
                forall|x: MSize|
                    #[trigger] (bumped + qoffs).contains(x) ==> x == start.0 || exists|
                        p: (MSize, int),
                    |
                        #[trigger] consumed.contains(p) && pre.node_slot(p.0, p.1) == x,
                forall|p: (MSize, int)|
                    #[trigger] consumed.contains(p) ==> pre.valid_off(p.0) && 0 <= p.1
                        < pre.node_len(p.0) && bumped.contains(p.0),
                !ended ==> forall|p: (MSize, int)|
                    #[trigger] consumed.contains(p) ==> (bumped + qoffs).contains(
                        pre.node_slot(p.0, p.1),
                    ),
                !ended ==> forall|a: MSize, t: int|
                    bumped.contains(a) && 0 <= t < pre.node_len(a) ==> consumed.contains(
                        (a, t),
                    ),
                !ended ==> visited@.len() == bumped.len(),
                forall|j: int|
                    0 <= j < bumped.len() ==> #[trigger] bumped[j] == visited@[j].edge_handle.0,
                ended ==> visited@.len() == bumped.len() + 1 && !bumped.contains(
                    visited@.last().edge_handle.0,
                ),
                (visited@.len() == 0 && bumped.len() == 0 && qoffs == seq![start.0] && !ended) || (
                visited@.len() >= 1 && visited@[0].edge_handle.0 == start.0),
                forall|j: int|
                    0 <= j < visited@.len() - (if ended {
                        1int
                    } else {
                        0int
                    }) ==> call_ensures(
                        traverse,
                        (
                            old(self).vertices.vals()[pre.node_vertex(
                                (#[trigger] visited@[j]).edge_handle.0,
                            )],
                            visited@[j],
                        ),
                        TraverseResult::Continue,
                    ),
                ended ==> call_ensures(
                    traverse,
                    (
                        old(self).vertices.vals()[pre.node_vertex(
                            visited@.last().edge_handle.0,
                        )],
                        visited@.last(),
                    ),
                    TraverseResult::End,
                ),
                !ended ==> bumped + fifo_order(
                    pre,
                    qoffs,
                    (pre.recs().len() - bumped.len()) as nat,
                ) == fifo_order(pre, seq![start.0], pre.recs().len()),
                ended ==> visit_offs(visited@).is_prefix_of(
                    fifo_order(pre, seq![start.0], pre.recs().len()),
                ),
            decreases
                    (if running {
                        1int
                    } else {
                        0int
                    }),
                    pre.recs().len() - bumped.len(),
                    nodes@.len(),
        {
            let val = nodes.pop_front().unwrap();
            let ghost voff = val.edge_handle.0;
            let ghost old_q = qoffs;
            proof {
                qoffs = qoffs.drop_first();
                assert(pre.valid_off(voff));
                assert forall|j: int| 0 <= j < qoffs.len() implies #[trigger] qoffs[j]
                    == nodes@[j].edge_handle.0 by {}
                self.lemma_vertex_in_range(voff);
                assert(old_q =~= seq![voff] + qoffs);
                assert(bumped + old_q =~= (bumped + seq![voff]) + qoffs);
                assert(((bumped + seq![voff]) + qoffs).no_duplicates());
                assert(!bumped.contains(voff)) by {
                    if bumped.contains(voff) {
                        let j = choose|j: int| 0 <= j < bumped.len() && bumped[j] == voff;
                        assert(((bumped + seq![voff]) + qoffs)[j] == voff);
                        assert(((bumped + seq![voff]) + qoffs)[bumped.len() as int] == voff);
                        assert(false);
                    }
                };
            }
            let vval = *self.vertices.at(val.vertex_handle.0);
            let res = traverse(vval, val);
            visited.push(val);
            proof {
                if visited@.len() == 1 {
                    assert(old_q == seq![start.0]);
                    assert(val.edge_handle.0 == old_q[0]);
                }
                assert(visited@[0].edge_handle.0 == start.0);
            }
            match res {
                TraverseResult::End => {
                    proof {
                        ended = true;
                        assert(call_ensures(traverse, (vval, val), TraverseResult::End));
                        assert(vval == old(self).vertices.vals()[pre.node_vertex(voff)]);
                        assert(visited@.last() == val);
                        assert((bumped + qoffs).no_duplicates()) by {
                            let whole = (bumped + seq![voff]) + qoffs;
                            assert forall|j1: int, j2: int|
                                0 <= j1 < j2 < (bumped + qoffs).len() implies (bumped + qoffs)[j1]
                                != (bumped + qoffs)[j2] by {
                                let k1: int = if j1 < bumped.len() { j1 } else { j1 + 1 };
                                let k2: int = if j2 < bumped.len() { j2 } else { j2 + 1 };
                                assert((bumped + qoffs)[j1] == whole[k1]);
                                assert((bumped + qoffs)[j2] == whole[k2]);
                            };
                        };
                    }
                    proof {
                        assert forall|x: MSize| #[trigger] (bumped + qoffs).contains(
                            x,
                        ) implies x == start.0 || exists|p: (MSize, int)|
                            #[trigger] consumed.contains(p) && pre.node_slot(p.0, p.1) == x by {
                            let j = choose|j: int|
                                0 <= j < (bumped + qoffs).len() && (bumped + qoffs)[j] == x;
                            let k: int = if j < bumped.len() {
                                j
                            } else {
                                j + 1
                            };
                            assert(((bumped + seq![voff]) + qoffs)[k] == x);
                            assert((bumped + old_q).contains(x));
                        };
                        let n_total = pre.recs().len();
                        assert(bumped.push(voff).no_duplicates()) by {
                            assert forall|j1: int, j2: int|
                                0 <= j1 < j2 < bumped.push(voff).len() implies bumped.push(
                                voff,
                            )[j1] != bumped.push(voff)[j2] by {
                                assert(((bumped + seq![voff]) + qoffs)[j1] == bumped.push(
                                    voff,
                                )[j1]);
                                assert(((bumped + seq![voff]) + qoffs)[j2] == bumped.push(
                                    voff,
                                )[j2]);
                            };
                        };
                        assert forall|j: int|
                            0 <= j < bumped.push(voff).len() implies pre.valid_off(
                            #[trigger] bumped.push(voff)[j],
                        ) by {
                            if j < bumped.len() {
                                assert(bumped.push(voff)[j] == bumped[j]);
                            }
                        };
                        lemma_distinct_valid_le(pre, bumped.push(voff));
                        let f = (n_total - bumped.len()) as nat;
                        assert(f >= 1);
                        assert(old_q.len() >= 1 && old_q[0] == voff);
                        assert(fifo_order(pre, old_q, f) == seq![voff] + fifo_order(
                            pre,
                            old_q.drop_first() + pre.nbrs(voff),
                            (f - 1) as nat,
                        ));
                        let whole = fifo_order(pre, seq![start.0], n_total);
                        assert(bumped + fifo_order(pre, old_q, f) == whole);
                        let rest = fifo_order(
                            pre,
                            old_q.drop_first() + pre.nbrs(voff),
                            (f - 1) as nat,
                        );
                        assert(whole =~= (bumped + seq![voff]) + rest);
                        assert(visit_offs(visited@) =~= bumped + seq![voff]);
                        assert(visit_offs(visited@) =~= whole.subrange(
                            0,
                            visited@.len() as int,
                        ));
                        assert(visit_offs(visited@).is_prefix_of(whole));
                    }
                    let g = self.edges.visited_val();
                    let ghost before_set = self.edges;
                    self.edges.set_visited_val(g + 1);
                    proof {
                        assert forall|i: int|
                            0 <= i < self.edges.recs().len() implies #[trigger] self.edges.record_wf(
                            i,
                        ) by {
                            assert(before_set.record_wf(i));
                        };
                        assert(self.edges.wf());
                        assert forall|i: int|
                            0 <= i < self.edges.recs().len() implies self.edges.node_vertex(
                            #[trigger] self.edges.recs()[i],
                        ) == i by {
                            assert(pre.valid_off(pre.recs()[i]));
                        };
                    }
                    running = false;
                }
                TraverseResult::Continue => {
                    proof {
                        assert(self.edges.node_visited(voff) == pre.node_visited(voff));
                        assert(pre.node_visited(voff) < usize::MAX);
                        assert(call_ensures(traverse, (vval, val), TraverseResult::Continue));
                        assert(vval == old(self).vertices.vals()[pre.node_vertex(voff)]);
                    }
                    let ghost before_inc = self.edges;
                    let ghost old_b = bumped;
                    self.edges.inc_visited_flag(val.edge_handle);
                    proof {
                        bumped = bumped.push(voff);
                        assert(bumped =~= old_b + seq![voff]);
                        assert(bumped + qoffs =~= (old_b + seq![voff]) + qoffs);
                        assert((bumped + qoffs).no_duplicates());
                        assert forall|o: MSize| #[trigger] pre.valid_off(o) implies {
                            &&& self.edges.node_len(o) == pre.node_len(o)
                            &&& self.edges.node_reserve(o) == pre.node_reserve(o)
                            &&& self.edges.node_vertex(o) == pre.node_vertex(o)
                            &&& (forall|t: int|
                                0 <= t < pre.node_reserve(o) ==> self.edges.node_slot(o, t)
                                    == pre.node_slot(o, t))
                        } by {
                            if o != voff {
                                assert(node_same(before_inc, self.edges, o));
                            }
                            assert forall|t: int|
                                0 <= t < pre.node_reserve(o) implies self.edges.node_slot(o, t)
                                == pre.node_slot(o, t) by {
                                if o != voff {
                                    assert(node_same(before_inc, self.edges, o));
                                    assert(self.edges.node_slot(o, t) == before_inc.node_slot(
                                        o,
                                        t,
                                    ));
                                } else {
                                    assert(self.edges.node_slot(o, t) == before_inc.node_slot(
                                        o,
                                        t,
                                    ));
                                }
                            };
                        };
                        assert forall|o: MSize| #[trigger] pre.valid_off(o) implies
                            self.edges.node_visited(o) == pre.node_visited(o) + (if bumped.contains(
                            o,
                        ) {
                            1int
                        } else {
                            0int
                        }) by {
                            assert(bumped.contains(voff)) by {
                                assert(bumped[bumped.len() - 1] == voff);
                            };
                            if o != voff {
                                assert(node_same(before_inc, self.edges, o));
                                assert(bumped.contains(o) <==> old_b.contains(o)) by {
                                    if old_b.contains(o) {
                                        let j = choose|j: int|
                                            0 <= j < old_b.len() && old_b[j] == o;
                                        assert(bumped[j] == o);
                                    }
                                    if bumped.contains(o) {
                                        let j = choose|j: int|
                                            0 <= j < bumped.len() && bumped[j] == o;
                                        assert(old_b[j] == o);
                                    }
                                };
                            }
                        };
                        assert forall|j: int|
                            0 <= j < bumped.len() implies pre.valid_off(#[trigger] bumped[j]) by {
                            if j < old_b.len() {
                                assert(bumped[j] == old_b[j]);
                            }
                        };
                        assert(bumped.no_duplicates()) by {
                            assert forall|j1: int, j2: int|
                                0 <= j1 < j2 < bumped.len() implies bumped[j1] != bumped[j2] by {
                                assert((bumped + qoffs)[j1] == bumped[j1]);
                                assert((bumped + qoffs)[j2] == bumped[j2]);
                            };
                        };
                        lemma_distinct_valid_le(pre, bumped);
                        pre.lemma_valid_bounds(voff);
                        assert(self.edges.valid(val.edge_handle));
                        assert forall|i: int|
                            0 <= i < self.edges.recs().len() implies self.edges.node_vertex(
                            #[trigger] self.edges.recs()[i],
                        ) == i by {
                            assert(pre.valid_off(pre.recs()[i]));
                        };
                        assert forall|j: int|
                            0 <= j < bumped.len() implies #[trigger] bumped[j]
                            == visited@[j].edge_handle.0 by {
                            if j < old_b.len() {
                                assert(bumped[j] == old_b[j]);
                            }
                        };
                        assert forall|p: (MSize, int)| #[trigger] consumed.contains(
                            p,
                        ) implies bumped.contains(p.0) by {
                            let j = choose|j: int| 0 <= j < old_b.len() && old_b[j] == p.0;
                            assert(bumped[j] == p.0);
                        };
                    }
                    let deg = self.edges.len(val.edge_handle);
                    let ghost q_base = qoffs;
                    proof {
                        assert(qoffs =~= q_base + pre.nbrs(voff).take(0));
                    }
                    let mut s: usize = 0;
                    while s < deg
                        invariant
                            s <= deg,
                            deg == pre.node_len(val.edge_handle.0),
                            qoffs == q_base + pre.nbrs(val.edge_handle.0).take(s as int),
                            qoffs.len() == nodes@.len(),
                            forall|j: int|
                                0 <= j < qoffs.len() ==> #[trigger] qoffs[j]
                                    == nodes@[j].edge_handle.0,
                            forall|j: int|
                                0 <= j < nodes@.len() ==> pre.valid_off(
                                    (#[trigger] nodes@[j]).edge_handle.0,
                                ) && nodes@[j].vertex_handle.0 == pre.node_vertex(
                                    nodes@[j].edge_handle.0,
                                ),
                            (bumped + qoffs).no_duplicates(),
                            forall|x: MSize|
                                #[trigger] (bumped + qoffs).contains(x) ==> x == start.0
                                    || exists|p: (MSize, int)|
                                    #[trigger] consumed.contains(p) && pre.node_slot(p.0, p.1)
                                        == x,
                            forall|p: (MSize, int)|
                                #[trigger] consumed.contains(p) ==> pre.valid_off(p.0) && 0
                                    <= p.1 < pre.node_len(p.0) && bumped.contains(p.0),
                            forall|p: (MSize, int)|
                                #[trigger] consumed.contains(p) ==> (bumped + qoffs).contains(
                                    pre.node_slot(p.0, p.1),
                                ),
                            forall|p: (MSize, int)|
                                #[trigger] consumed.contains(p) && p.0 == val.edge_handle.0
                                    ==> p.1 < s,
                            forall|a: MSize, t: int|
                                bumped.contains(a) && 0 <= t < pre.node_len(a) && a
                                    != val.edge_handle.0 ==> consumed.contains((a, t)),
                            forall|t: int|
                                0 <= t < s ==> consumed.contains((val.edge_handle.0, t)),
                        decreases deg - s,
                    {
                        let ghost q_head = qoffs;
                        let ghost c_head = consumed;
                        let next = self.edges.get(val.edge_handle, s);
                        proof {
                            assert(self.edges.node_slot(voff, s as int) == pre.node_slot(
                                voff,
                                s as int,
                            ));
                            assert(pre.valid_off(next.0));
                        }
                        proof {
                            assert(!(bumped + qoffs).contains(next.0)) by {
                                if (bumped + qoffs).contains(next.0) {
                                    if next.0 == start.0 {
                                        assert(pre.node_slot(voff, s as int) != start.0);
                                        assert(false);
                                    } else {
                                        let p = choose|p: (MSize, int)|
                                            #[trigger] consumed.contains(p) && pre.node_slot(
                                                p.0,
                                                p.1,
                                            ) == next.0;
                                        assert(pre.node_slot(p.0, p.1) == pre.node_slot(
                                            voff,
                                            s as int,
                                        ));
                                        assert(p.0 == voff && p.1 == s as int);
                                        assert(false);
                                    }
                                }
                            };
                        }
                        // generation check: a neighbor already carrying the
                        // pass value is treated as visited and not enqueued;
                        // on a clean tree each node has one incoming slot, so
                        // the skip arm never fires (the proof above rules a
                        // marked neighbor out)
                        let flag = self.edges.visited_flag(next);
                        if flag != self.edges.visited_val() {
                            let h = self.edges.handle_from_edge_handle(next);
                            nodes.push_back(h);
                            proof {
                                qoffs = qoffs.push(next.0);
                                assert(bumped + qoffs =~= (bumped + q_head).push(next.0));
                                assert((bumped + qoffs).no_duplicates()) by {
                                    let base = bumped + q_head;
                                    assert forall|j1: int, j2: int|
                                        0 <= j1 < j2 < (bumped + qoffs).len() implies (bumped
                                        + qoffs)[j1] != (bumped + qoffs)[j2] by {
                                        if j2 < base.len() {
                                        } else {
                                            assert((bumped + qoffs)[j2] == next.0);
                                            assert(base.contains(base[j1]));
                                        }
                                    };
                                };
                                assert((bumped + qoffs)[(bumped + qoffs).len() - 1] == next.0);
                                assert((bumped + qoffs).contains(next.0));
                                assert(pre.nbrs(voff)[s as int] == pre.node_slot(
                                    voff,
                                    s as int,
                                ));
                                assert(pre.nbrs(voff).take(s as int + 1) =~= pre.nbrs(
                                    voff,
                                ).take(s as int).push(pre.nbrs(voff)[s as int]));
                                assert(qoffs =~= q_base + pre.nbrs(voff).take(s as int + 1));
                            }
                        } else {
                            proof {
                                assert(bumped.contains(next.0)) by {
                                    if !bumped.contains(next.0) {
                                        assert(self.edges.node_visited(next.0)
                                            == pre.node_visited(next.0));
                                        assert(pre.node_visited(next.0) != pre.visited_gen());
                                        assert(false);
                                    }
                                };
                                assert(bumped + qoffs =~= bumped + qoffs);
                                let j = choose|j: int|
                                    0 <= j < bumped.len() && bumped[j] == next.0;
                                assert((bumped + qoffs)[j] == next.0);
                                assert((bumped + qoffs).contains(next.0));
                            }
                        }
                        proof {
                            consumed = consumed.insert((voff, s as int));
                            assert((bumped + qoffs).contains(pre.node_slot(voff, s as int)));
                            assert forall|y: MSize| (bumped + q_head).contains(y) implies (bumped
                                + qoffs).contains(y) by {
                                let j = choose|j: int|
                                    0 <= j < (bumped + q_head).len() && (bumped + q_head)[j] == y;
                                assert((bumped + qoffs)[j] == y);
                            };
                            assert forall|x: MSize| #[trigger] (bumped + qoffs).contains(
                                x,
                            ) implies x == start.0 || exists|p: (MSize, int)|
                                #[trigger] consumed.contains(p) && pre.node_slot(p.0, p.1)
                                    == x by {
                                if (bumped + q_head).contains(x) {
                                    if x != start.0 {
                                        let p = choose|p: (MSize, int)|
                                            #[trigger] c_head.contains(p) && pre.node_slot(
                                                p.0,
                                                p.1,
                                            ) == x;
                                        assert(consumed.contains(p));
                                    }
                                } else {
                                    let j = choose|j: int|
                                        0 <= j < (bumped + qoffs).len() && (bumped + qoffs)[j]
                                            == x;
                                    assert(j == (bumped + qoffs).len() - 1);
                                    assert(x == pre.node_slot(voff, s as int));
                                    assert(consumed.contains((voff, s as int)));
                                }
                            };
                            assert forall|p: (MSize, int)| #[trigger] consumed.contains(
                                p,
                            ) implies (bumped + qoffs).contains(pre.node_slot(p.0, p.1)) by {
                                if p != (voff, s as int) {
                                    assert(c_head.contains(p));
                                    assert((bumped + q_head).contains(pre.node_slot(p.0, p.1)));
                                }
                            };
                        }
                        s += 1;
                    }
                    proof {
                        let n_total = pre.recs().len();
                        let f_old = (n_total - old_b.len()) as nat;
                        assert(f_old >= 1);
                        assert(old_q.len() >= 1 && old_q[0] == voff);
                        assert(old_q.drop_first() =~= q_base);
                        assert(pre.nbrs(voff).take(deg as int) =~= pre.nbrs(voff));
                        assert(qoffs =~= q_base + pre.nbrs(voff));
                        assert(fifo_order(pre, old_q, f_old) == seq![voff] + fifo_order(
                            pre,
                            old_q.drop_first() + pre.nbrs(voff),
                            (f_old - 1) as nat,
                        ));
                        assert(old_q.drop_first() + pre.nbrs(voff) =~= qoffs);
                        assert(old_b + fifo_order(pre, old_q, f_old) == fifo_order(
                            pre,
                            seq![start.0],
                            n_total,
                        ));
                        assert((f_old - 1) as nat == (n_total - bumped.len()) as nat);
                        assert(bumped + fifo_order(
                            pre,
                            qoffs,
                            (n_total - bumped.len()) as nat,
                        ) =~= old_b + (seq![voff] + fifo_order(
                            pre,
                            qoffs,
                            (f_old - 1) as nat,
                        )));
                        assert(bumped + fifo_order(pre, qoffs, (n_total - bumped.len()) as nat)
                            == fifo_order(pre, seq![start.0], n_total));
                    }
                    running = nodes.len() > 0;
                }
            }
        }
        let ghost before_reset = self.edges;
        self.edges.set_visited_val(0);
        proof {
            assert forall|i: int|
                0 <= i < self.edges.recs().len() implies #[trigger] self.edges.record_wf(i) by {
                assert(before_reset.record_wf(i));
            };
            assert(self.edges.wf());
            assert(self.edges.recs().len() == self.vertices.vals().len());
            assert forall|i: int|
                0 <= i < self.edges.recs().len() implies self.edges.node_vertex(
                #[trigger] self.edges.recs()[i],
            ) == i by {
                assert(pre.valid_off(pre.recs()[i]));
            };
            assert forall|j1: int, j2: int|
                0 <= j1 < j2 < visited@.len() implies (#[trigger] visited@[j1]).edge_handle.0 != (
            #[trigger] visited@[j2]).edge_handle.0 by {
                let vq = bumped + qoffs;
                if j2 < bumped.len() {
                    assert(vq[j1] == bumped[j1] && vq[j2] == bumped[j2]);
                } else {
                    assert(j2 == bumped.len() && ended);
                    assert(visited@[j1].edge_handle.0 == bumped[j1]);
                    assert(bumped.contains(bumped[j1]));
                }
            };
            let lastoff = visited@.last().edge_handle.0;
            if ended {
                assert(!bumped.contains(lastoff));
                assert(self.edges.node_visited(lastoff) == pre.node_visited(lastoff));
            } else {
                assert(visited@.len() == bumped.len());
                assert(bumped[bumped.len() - 1] == lastoff);
                assert(bumped.contains(lastoff));
                assert(self.edges.node_visited(lastoff) == pre.node_visited(lastoff) + 1);
            }
            assert(pass_ended_early(pre, self.edges, visited@) <==> ended);
            if ended {
                assert(visit_offs(visited@).drop_last() =~= bumped);
            } else {
                assert(visit_offs(visited@) =~= bumped);
            }
            assert(marked_by_pass(pre, self.edges, visited@) == bumped);
            let whole = fifo_order(pre, seq![start.0], pre.recs().len());
            if !ended {
                assert(qoffs.len() == 0);
                assert(fifo_order(
                    pre,
                    qoffs,
                    (pre.recs().len() - bumped.len()) as nat,
                ) == Seq::<MSize>::empty());
                assert(bumped + fifo_order(
                    pre,
                    qoffs,
                    (pre.recs().len() - bumped.len()) as nat,
                ) =~= bumped);
                assert(visit_offs(visited@) == whole);
                assert(visit_offs(visited@) =~= whole.subrange(0, visited@.len() as int));
                assert(visit_offs(visited@).is_prefix_of(whole));
                assert forall|j: int, t: int|
                    0 <= j < visited@.len() && 0 <= t < pre.node_len(
                        visited@[j].edge_handle.0,
                    ) implies visit_offs(visited@).contains(
                    #[trigger] pre.node_slot(visited@[j].edge_handle.0, t),
                ) by {
                    let x = visited@[j].edge_handle.0;
                    assert(bumped[j] == x);
                    assert(bumped.contains(x));
                    assert(consumed.contains((x, t)));
                    assert((bumped + qoffs).contains(pre.node_slot(x, t)));
                    assert(bumped =~= bumped + qoffs);
                    let k = choose|k: int|
                        0 <= k < bumped.len() && bumped[k] == pre.node_slot(x, t);
                    assert(visit_offs(visited@)[k] == pre.node_slot(x, t));
                };
            }
            if forall|v: T, h: Handle, y: TraverseResult|
                call_ensures(traverse, (v, h), y) ==> y == TraverseResult::Continue {
                if ended {
                    assert(call_ensures(
                        traverse,
                        (
                            old(self).vertices.vals()[pre.node_vertex(
                                visited@.last().edge_handle.0,
                            )],
                            visited@.last(),
                        ),
                        TraverseResult::End,
                    ));
                    assert(false);
                }
                assert(nodes@.len() == 0);
                assert(qoffs.len() == 0);
                assert(bumped =~= bumped + qoffs);
                assert(bumped.len() >= 1 && bumped[0] == start.0);
                assert(bumped.contains(start.0));
                if connected_from(pre, start.0) {
                    assert forall|x: MSize, t: int|
                        bumped.contains(x) && 0 <= t < pre.node_len(x) implies bumped.contains(
                        #[trigger] pre.node_slot(x, t),
                    ) by {
                        assert(consumed.contains((x, t)));
                    };
                    assert forall|o: MSize| #[trigger] pre.valid_off(o) implies bumped.contains(
                        o,
                    ) by {
                        let k = choose|k: nat| reachable_k(pre, start.0, o, k);
                        lemma_reachable_closed(pre, start.0, bumped, o, k);
                    };
                    assert forall|o: MSize| #[trigger] pre.valid_off(o) implies exists|j: int|
                        0 <= j < visited@.len() && visited@[j].edge_handle.0 == o by {
                        let j = choose|j: int| 0 <= j < bumped.len() && bumped[j] == o;
                        assert(visited@[j].edge_handle.0 == o);
                    };
                    assert forall|o: MSize| #[trigger] self.edges.valid_off(
                        o,
                    ) implies self.edges.node_visited(o) != self.edges.visited_gen() by {
                        assert(pre.valid_off(o));
                        assert(bumped.contains(o));
                        assert(self.edges.node_visited(o) == pre.node_visited(o) + 1);
                    };
                    assert(clean(self.edges));
                }
            }
        }
        visited
    }

}

} // verus!
