//! A raster map of provinces keyed by colour, with its tables, its boundary
//! set and its undo history.
//!
//! The map itself is in `province_map`, over the raster and the tables of
//! `base`; what holds of a map is said in `model`, `tally` and `edges`. The
//! history of a map is in `history`, the colours that provinces are given
//! anew in `palette`, the analysis of a map in `problems`,
//! and the way between a map and the rows of its files in `bridge`, `rows`
//! and `records`. The console, its commands and the brushes of the tools
//! are in `console`, `command` and `tool`.
pub mod base;
pub mod bridge;
pub mod bundle;
pub mod color;
pub mod command;
pub mod config;
pub mod console;
pub mod edges;
pub mod extents;
pub mod history;
pub mod kinds;
pub mod model;
pub mod palette;
pub mod problems;
pub mod province;
pub mod province_map;
pub mod records;
pub mod rows;
pub mod shared;
pub mod tables;
pub mod tally;
pub mod text;
pub mod tool;
pub mod uord;
pub mod util;
