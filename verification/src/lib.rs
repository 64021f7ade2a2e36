//! A small software ray tracer with a verified core.
//!
//! Every quantity is carried in fixed-point arithmetic: an `i64` raw value
//! counts units of `1 / SCALE`, so the geometry, the shading and the
//! scheduling are all plain integer computations with exact contracts.

pub mod camera;
pub mod fixed;
pub mod lambertian;
pub mod lightsource;
pub mod material;
pub mod pixel;
pub mod ray;
pub mod raytree;
pub mod shapes;
pub mod vector;
pub mod world;

pub use fixed::SCALE;
