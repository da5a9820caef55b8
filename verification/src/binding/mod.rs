//! What the Python bindings decide: which exception reports an error, which
//! scalar an array takes, which element type a transfer runs on, and how a
//! column of statistics is handed out.

pub mod cells;
pub mod fill;
pub mod options;
pub mod raised;
pub mod transfer;
