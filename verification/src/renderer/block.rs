//! The index list of the quads that blocks are drawn as.

use vstd::prelude::*;

verus! {

/// The indices of the two triangles of a quad whose four corners stand in
/// the vertex list from `first` on, counter-clockwise: the triangle of the
/// first three corners, then the one that closes the quad.
pub open spec fn quad_indices(first: u32) -> Seq<u32> {
    seq![
        first,
        (first + 1) as u32,
        (first + 2) as u32,
        (first + 2) as u32,
        (first + 3) as u32,
        first,
    ]
}

/// Appends the indices of the quad that starts at the vertex `vertex_count`.
pub fn push_quad_indices(indices: &mut Vec<u32>, vertex_count: u32)
    requires
        vertex_count + 3 <= u32::MAX,
    ensures
        final(indices)@ == old(indices)@ + quad_indices(vertex_count),
{
    indices.push(vertex_count);
    indices.push(vertex_count + 1);
    indices.push(vertex_count + 2);
    indices.push(vertex_count + 2);
    indices.push(vertex_count + 3);
    indices.push(vertex_count);
    assert(indices@ =~= old(indices)@ + quad_indices(vertex_count));
}

} // verus!
