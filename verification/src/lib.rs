//! Parameters, geometry and frame logic of a procedural blob.

pub mod bend;
pub mod blob;
pub mod bump;
pub mod folding;
pub mod frame;
pub mod integral;
pub mod math;
pub mod ordering;
pub mod orientation;
pub mod outline;
pub mod panel;
pub mod perpendicular;
pub mod rounding;
pub mod scalar;
pub mod scaling;
pub mod session;
pub mod surface;
pub mod tolerance;
pub mod uniforms;
