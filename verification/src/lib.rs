//! Core data structures of a small rendering engine: application-wide resource
//! identifiers, typed resource pools and their registry, shader source assembly, vertex
//! attributes and geometries, the scene node tree and its walks, and the work distribution
//! used by the parallel task runner.

pub mod id;
pub mod resource;
pub mod pool;
pub mod named;
pub mod attribute;
pub mod shader;
pub mod work;
pub mod material;
pub mod app2d;
pub mod node;
