//! The decision core of a Monte-Carlo path tracer: which surface a ray
//! reaches, which material answers for it, how an image is cut into strips
//! for parallel workers, and how their results are painted onto the canvas.

pub mod canvas;
pub mod geometry;
pub mod material;
pub mod scene;
pub mod tiles;
