//! A sparse, unbounded Game of Life: the cell set and its neighbour count,
//! the generation step under configurable birth and survival rules, the input
//! reducer with its event queue, and the render diff against a scrolled view.

pub mod cells;
pub mod generation;
pub mod input;
pub mod render;
pub mod config;
