//! A library of perfect-maze generators.
//!
//! A maze is a rectangular grid of cells; an open passage between two
//! adjacent cells is recorded as a pair of direction flags, one on each
//! endpoint. Six randomized algorithms each carve a spanning tree of the
//! grid graph into a [`grid::Grid`]: every one of them guarantees a
//! well-formed, link-symmetric grid whose passages number exactly one
//! less than its cells — counted as `2 * (width * height) - 2` direction
//! flags — and connect every cell to every other. Seeded runs of the two
//! row-major carvers are pinned down bit for bit by their contracts.

pub mod algorithms;
pub mod carving;
pub mod color;
pub mod connect;
pub mod grid;
pub mod laws;
pub mod rng;
pub mod text;
