//! What the renderer needs to know of the library's values.

pub mod vertex;
