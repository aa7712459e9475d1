use vstd::prelude::*;

use crate::document::{SourceLayer, VertexLayer};
use crate::semantics::SemanticsSourceLayerType;

verus! {

/// One named parameter of a COLLADA source with its values. Floating-point
/// values are held by their IEEE 754 single-precision bit patterns.
pub enum SourceData {
    Float(String, Vec<u32>),
    Int(String, Vec<i32>),
}

/// The number of values of a parameter.
pub open spec fn source_data_len(d: SourceData) -> int {
    match d {
        SourceData::Float(_, v) => v@.len() as int,
        SourceData::Int(_, v) => v@.len() as int,
    }
}

/// A COLLADA source: its parameters in order.
pub struct Source {
    pub data: Vec<SourceData>,
}

/// A source of a vertex as a level of detail builds it from a document.
pub struct VirtualSource<'a> {
    pub vertex_layer: &'a VertexLayer,
    pub is_index: bool,
    pub layers: Vec<VirtualSourceLayer<'a>>,
}

/// A layer of a virtual source and the type it is written as.
pub struct VirtualSourceLayer<'a> {
    pub layer: &'a SourceLayer,
    pub output_type: SemanticsSourceLayerType,
}

} // verus!
