pub mod pixel;
pub mod screen;
pub mod vecs;
