//! A chunked spatial store: values ("tiles") live at N-dimensional integer
//! coordinates and are kept in fixed-size chunks that are created on the first
//! insert into their bounds and, by default, dropped with their last tile.
pub mod chunks;
pub mod commands;
pub mod coords;
pub mod maps;
pub mod queries;
pub mod utils;
