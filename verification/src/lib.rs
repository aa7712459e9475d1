//! Conversion of COLLADA documents into the model format of a game engine:
//! reading the XML event stream of a document, checking its structure,
//! assembling triangle vertex data, and parsing the vertex semantics text
//! that tells which layers a vertex is made of.

mod error;
pub use error::Error;

pub mod text;
pub mod lexer;

pub mod semantics;
pub use semantics::{Semantics, SemanticsSource, SemanticsSourceLayer, SemanticsSourceLayerType};

pub mod xml;
pub mod collada;
mod bytes;
pub mod document;

pub mod source;
pub use source::{VirtualSource, VirtualSourceLayer};

pub mod layer;
pub use layer::VirtualLayer;

pub mod lod;
pub use lod::{VirtualLOD, LOD};

pub mod mesh;
pub use mesh::{GeometryType, Mesh, VirtualMesh};

pub mod geometry;
pub mod ieee;
pub mod numbers;
pub mod polylist;
pub mod reader;
pub mod convert;
pub mod source_content;
