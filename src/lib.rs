//! A falling-block board: blocks on a grid of columns and rows, removal of a
//! block, and the gravity that brings the blocks above it down one row at a time.
//!
//! A tick runs four phases in order: a removal signal marks one block as
//! removed (`trigger`), every block above a removed one starts to fall
//! (`propagation`), falling blocks step down (`resolution`), and removed
//! blocks are destroyed (`lifecycle`).

pub mod block;
pub mod board;
pub mod propagation;
pub mod resolution;
pub mod trigger;
pub mod lifecycle;
pub mod tick;
pub mod timer;
pub mod laws;
