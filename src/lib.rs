//! A Pong simulation core: entities on an integer plane, circle-against-box
//! collision with side resolution, paddle movement, scoring and a reactive
//! AI paddle controller, advanced one tick at a time.
pub mod geometry;
pub mod world;
