/// Three-component vectors. The verified operations work on `i64` components with exact
/// arithmetic; `normalized` scales to the fixed-point length `UNIT`.
pub mod vec;

/// Spheres and rays: ray/sphere intersection, the nearest hit along a ray, and the
/// shadow-ray test against a light source.
pub mod sphere;
