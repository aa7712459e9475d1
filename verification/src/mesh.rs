use vstd::prelude::*;

use crate::document;
use crate::lod::LOD;

verus! {

/// The kind of primitive a mesh is drawn with.
pub enum GeometryType {
    Lines,
    Triangles,
}

/// A mesh of the model: its name, its kind of primitive and its levels of
/// detail.
#[allow(dead_code)]
pub struct Mesh<V> {
    name: String,
    geometry_type: GeometryType,
    lods: Vec<LOD<V>>,
}

/// A mesh of the model as it is assembled from the meshes of a document: its
/// name, the full vertex semantics, the document mesh of each level of detail
/// where there is one, and how many vertices each polygon has.
pub struct VirtualMesh<'a> {
    pub name: String,
    pub full_semantics: String,
    pub lods: Vec<Option<&'a document::Mesh>>,
    pub vertex_count_per_polygon: usize,
}

} // verus!
