use vstd::prelude::*;

use crate::document::{SourceLayer, VertexLayer};

verus! {

/// A layer of a vertex as a level of detail builds it: the vertex layer of the
/// document, whether its values are written as indexes, and the source layers
/// it takes its values from.
#[allow(dead_code)]
pub struct VirtualLayer<'a> {
    vertex_layer: &'a VertexLayer,
    is_index: bool,
    source_layers: Vec<&'a SourceLayer>,
}

} // verus!
