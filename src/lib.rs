//! Hidden-surface removal for the three-dimensional boundary cells of a
//! four-dimensional polytope, computed with exact integer homogeneous
//! coordinates. Cameras, embeddings and constraints have entries in
//! `[-256, 256]`, which keeps every intermediate value within `i128`.

pub mod facet;
pub mod linalg;
pub mod mesh;
pub mod projective;
pub mod pruning;
pub mod texture;
pub mod triangle;

pub use facet::Facet;
pub use mesh::Mesh;
pub use texture::Texture;
pub use triangle::{Triangle, Vertex};
