//! Exact-cover solving with dancing links, and the small integer geometry
//! and bookkeeping helpers of a tile-placement game.
pub mod animation;
pub mod fov;
pub mod geometry;
pub mod links;
pub mod matrix;
pub mod random;
pub mod search;
