//! The verified core of a Monte-Carlo path tracer: the bounding-volume
//! hierarchy and nearest-hit queries, the decisions of the radiance
//! estimator, the pixel work queue and framebuffer, the 8-bit channel
//! conversion, box and die mesh layouts, and the OBJ text format.
//!
//! Coordinates and ray parameters reach the library as order-preserving
//! integer keys: everything here compares them and never does arithmetic on
//! them, so the keys carry all that the logic reads.
pub mod bounds;
pub mod bvh;
pub mod mesh;
pub mod nearest;
pub mod obj;
pub mod path;
pub mod raster;
pub mod world;
