//! A half-edge mesh kernel (doubly connected edge list).
//!
//! The mesh stores polygonal surfaces through four relations per half-edge
//! (root vertex, incident face, next edge in the face loop, twin edge) and a
//! representative edge per vertex and face.  Construction from a flat face
//! list either returns a mesh for which all structural invariants are proved,
//! or a typed error describing why the input is malformed.  Traversal,
//! verification passes, and a weighted shortest-path engine operate on top.

pub mod construct;
pub mod douconel;
pub mod ids;
pub mod laws;
pub mod mem;
pub mod sampling;
pub mod search;
pub mod traverse;

pub use douconel::Douconel;
pub use douconel::MAX_FACE_DEGREE;
pub use ids::EdgeID;
pub use ids::EmbeddedMeshError;
pub use ids::FaceID;
pub use ids::FaceMap;
pub use ids::IntegrityError;
pub use ids::InvariantKind;
pub use ids::Relation;
pub use ids::StructuralError;
pub use ids::VertID;
pub use ids::VertMap;
pub use mem::Memory;
pub use search::NeighborCache;
pub use search::find_shortest_path;
pub use search::find_shortest_cycle;
