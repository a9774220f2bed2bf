//! Geometry, texture and input logic of a small OBJ model viewer.
pub mod controls;
pub mod error;
pub mod obj;
pub mod ppm;
pub mod text;
