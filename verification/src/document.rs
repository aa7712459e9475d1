use vstd::prelude::*;

verus! {

/// The values of one layer of a source in a document. Floating-point values
/// are held by their IEEE 754 single-precision bit patterns.
pub enum SourceLayer {
    Float(Vec<u32>),
    Integer(Vec<i32>),
}

/// A layer of the vertices of a mesh: for each vertex of each polygon, the
/// index of its value in the layers of its source.
pub struct VertexLayer {
    pub name: String,
    pub indexes: Vec<usize>,
}

/// A polygon of a mesh: where its vertices start and how many it has.
pub struct Polygon {
    pub first_vertex_index: usize,
    pub vertices_count: usize,
}

/// A mesh of a document.
pub struct Mesh {
    pub material: Option<String>,
    pub full_semantics: String,
    pub polygons: Vec<Polygon>,
    pub vertex_layers: Vec<VertexLayer>,
}

} // verus!
