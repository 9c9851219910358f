//! A Monte-Carlo ray tracer whose geometry and light transport are verified.
//!
//! Real numbers are fixed-point integers (`fixed`): every operation is exact on
//! integers, rounds quotients toward zero and saturates, so each function's
//! result is stated exactly by spec functions over those integers.
//!
//! - `vector`, `ray`: vector algebra and rays.
//! - `shapes`: spheres, one-sided planes and triangles, and their hit records.
//! - `material`: diffuse, metal, glass and light scattering.
//! - `scene`: the nearest hit over all surfaces.
//! - `camera`: viewport geometry, sample rays, the radiance integrator and the
//!   8-bit RGB image.
//! - `mesh`: triangles from OBJ text.
//! - `sampling`: random draws from a seeded `rand::rngs::StdRng`.
pub mod fixed;
pub mod vector;
pub mod ray;
pub mod sampling;
pub mod shapes;
pub mod material;
pub mod scene;
pub mod camera;
pub mod mesh;
