//! A triple-store scripting engine: directed labelled edges, a small
//! line-oriented language that walks and rewrites them, and the
//! write-buffering data manager that sits between the two.

pub mod auth;
pub mod buffer;
pub mod data;
pub mod engine;
pub mod err;
pub mod function;
pub mod inc;
pub mod laws;
pub mod mem_table;
pub mod parser;
pub mod path;
pub mod resolver;
pub mod sql;
pub mod text;
pub mod tree;
pub mod util;
