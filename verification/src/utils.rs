//! Free helpers: handle resolution and array partitioning.
use vstd::prelude::*;
use crate::graph::{EdgeData, EdgeHandle, Handle, VertexHandle};

verus! {

/// Reads the owning vertex handle of a node out of an arena.
pub fn vertex_handle(edges: &EdgeData, edge_handle: EdgeHandle) -> (r: VertexHandle)
    requires
        edges.wf(),
        edges.valid(edge_handle),
    ensures
        r.0 as int == edges.node_vertex(edge_handle.0),
{
    edges.vertex_handle(edge_handle)
}

/// Resolves an edge handle against an arena into the full handle of the node.
pub fn handle_from_edge_handle(edges: &EdgeData, edge_handle: EdgeHandle) -> (r: Handle)
    requires
        edges.wf(),
        edges.valid(edge_handle),
    ensures
        r.edge_handle == edge_handle,
        r.vertex_handle.0 as int == edges.node_vertex(edge_handle.0),
{
    edges.handle_from_edge_handle(edge_handle)
}


/// Splits `input` into `number_of_parts` contiguous parts, each of size
/// `input.len() / number_of_parts`, followed by one extra trailing part
/// holding exactly the remainder when it is nonzero. The parts cover the
/// input exactly, in order, element for element.
#[verifier::loop_isolation(false)]
pub fn split_to_parts<T: Copy>(input: &Vec<T>, number_of_parts: usize) -> (parts: Vec<Vec<T>>)
    requires
        number_of_parts > 0,
    ensures
        parts@.len() as int == number_of_parts + if input@.len() as int % (number_of_parts as int) == 0 {
            0int
        } else {
            1int
        },
        forall|j: int|
            0 <= j < number_of_parts ==> (#[trigger] parts@[j])@ == input@.subrange(
                j * (input@.len() as int / number_of_parts as int),
                (j + 1) * (input@.len() as int / number_of_parts as int),
            ),
        input@.len() as int % (number_of_parts as int) != 0 ==> parts@[number_of_parts as int]@
            == input@.subrange(
            number_of_parts as int * (input@.len() as int / number_of_parts as int),
            input@.len() as int,
        ),
{
    let len = input.len();
    let quot = len / number_of_parts;
    let rem = len % number_of_parts;
    proof {
        vstd::arithmetic::div_mod::lemma_fundamental_div_mod(len as int, number_of_parts as int);
        assert(number_of_parts * quot + rem == len) by (nonlinear_arith)
            requires
                number_of_parts > 0,
                quot == len as int / number_of_parts as int,
                rem == len as int % number_of_parts as int,
                len as int == number_of_parts as int * (len as int / number_of_parts as int)
                    + len as int % number_of_parts as int,
        ;
    }
    let mut parts: Vec<Vec<T>> = Vec::new();
    let mut base: usize = 0;
    let mut i: usize = 0;
    while i < number_of_parts
        invariant
            i <= number_of_parts,
            base == i * quot,
            parts@.len() == i,
            forall|j: int|
                0 <= j < i ==> (#[trigger] parts@[j])@ == input@.subrange(
                    j * quot,
                    (j + 1) * quot,
                ),
        decreases number_of_parts - i,
    {
        proof {
            assert(base + quot <= number_of_parts * quot) by (nonlinear_arith)
                requires
                    base == i * quot,
                    i < number_of_parts,
                    quot >= 0,
            ;
        }
        let mut part: Vec<T> = Vec::new();
        let mut k: usize = 0;
        while k < quot
            invariant
                k <= quot,
                base + quot <= len,
                part@.len() == k,
                forall|t: int| 0 <= t < k ==> #[trigger] part@[t] == input@[base + t],
            decreases quot - k,
        {
            part.push(input[base + k]);
            k += 1;
        }
        proof {
            assert((i + 1) * quot == i * quot + quot) by (nonlinear_arith);
            assert(part@ =~= input@.subrange(i as int * quot as int, (i + 1) * quot));
        }
        parts.push(part);
        base = base + quot;
        i += 1;
    }
    if rem > 0 {
        let mut part: Vec<T> = Vec::new();
        let mut k: usize = 0;
        while k < rem
            invariant
                k <= rem,
                base == number_of_parts * quot,
                base + rem == len,
                part@.len() == k,
                forall|t: int| 0 <= t < k ==> #[trigger] part@[t] == input@[base + t],
            decreases rem - k,
        {
            part.push(input[base + k]);
            k += 1;
        }
        proof {
            assert(part@ =~= input@.subrange(
                number_of_parts as int * (len as int / number_of_parts as int),
                len as int,
            ));
        }
        parts.push(part);
    }
    parts
}

} // verus!
