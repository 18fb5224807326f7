//! Cube geometries, one module per wiring scheme.

pub mod snake;
