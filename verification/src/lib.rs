pub mod cli;
pub mod collections;
pub mod diff;
pub mod expr;
pub mod extract;
pub mod git;
pub mod model;
pub mod path;
pub mod render;
pub mod text;
pub mod yaml;
