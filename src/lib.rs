//! The structural core of a Whitted-style ray tracer: the layout of square
//! matrices, the scene graph of objects and groups, the pixel buffer, and the
//! bookkeeping of which media a ray passes between at a refractive boundary.

pub mod canvas;
pub mod color;
pub mod matrix;
pub mod pattern;
pub mod refraction;
pub mod scene;
pub mod shapes;
