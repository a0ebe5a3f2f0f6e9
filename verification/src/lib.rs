//! Rectangular labyrinths: a grid of rooms separated by walls, a carving
//! generator that opens a spanning tree of passages through them, and a
//! character-canvas renderer for the result.

pub mod generator;
pub mod geometry;
pub mod labyrinth;
pub mod text_display;
pub mod views;
