//! The discrete core of a Monte Carlo ray tracer: the bounding volume hierarchy
//! and its search, the order of floating-point keys, the split of the sample
//! budget over workers and of the image into pixels, the depth bound of a
//! light path, and the plain-text pixmap format.

pub mod bvh;
pub mod integrator;
pub mod key;
pub mod plan;
pub mod ppm;
pub mod traversal;
