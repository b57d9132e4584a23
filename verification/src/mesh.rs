//! Indexed meshes.
use vstd::prelude::*;

verus! {

/// Every index names a vertex of the mesh.
pub open spec fn indices_in_range<T>(vertices: Seq<T>, indices: Seq<u16>) -> bool {
    forall|k: int| 0 <= k < indices.len() ==> (#[trigger] indices[k] as int) < vertices.len()
}

/// The vertices that an index buffer lists, one per index and in the order of the indices: for
/// a triangle list, the corners of each triangle in turn.
pub fn triangle_soup<T: Copy>(vertices: &[T], indices: &[u16]) -> (soup: Vec<T>)
    requires
        indices_in_range(vertices@, indices@),
    ensures
        soup@.len() == indices@.len(),
        forall|k: int| 0 <= k < indices@.len() ==> #[trigger] soup@[k] == vertices@[indices@[k] as int],
{
    let mut soup: Vec<T> = Vec::new();
    let mut k: usize = 0;
    while k < indices.len()
        invariant
            indices_in_range(vertices@, indices@),
            k <= indices@.len(),
            soup@.len() == k,
            forall|j: int| 0 <= j < k ==> #[trigger] soup@[j] == vertices@[indices@[j] as int],
        decreases indices.len() - k,
    {
        let index = indices[k];
        assert((indices@[k as int] as int) < vertices@.len());
        soup.push(vertices[index as usize]);
        k += 1;
    }
    soup
}

} // verus!
