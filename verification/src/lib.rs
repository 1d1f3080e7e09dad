//! A sphere-tracing renderer over fixed-point arithmetic.
//!
//! Every quantity is an integer count of millionths: the raw value
//! `1_000_000` stands for one. Scenes of signed-distance primitives are
//! rendered with diffuse shading, hard shadows and bounded reflection.

pub mod fixed;
pub mod trig;
pub mod vector;
pub mod reflection;
pub mod lighting;
pub mod objects;
pub mod ray;
pub mod scene;
