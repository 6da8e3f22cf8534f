pub mod model;
pub mod infra;
pub mod cursor;
pub mod builder;
pub mod idmap;
pub mod tracks;
pub mod ports;
pub mod points;
pub mod network;
pub mod dgraph;
pub mod editor;
