use vstd::prelude::*;

use crate::source::VirtualSource;

verus! {

/// A level of detail: the distance from which on it is drawn, held by its
/// IEEE 754 single-precision bit pattern, and its data.
pub struct LOD<V> {
    pub distance: u32,
    pub dtt: V,
}

/// A level of detail as it is assembled from a document: its distance, held
/// by its single-precision bit pattern, and the sources of its vertices.
pub struct VirtualLOD<'a> {
    pub distance: u32,
    pub sources: Vec<VirtualSource<'a>>,
}

} // verus!
