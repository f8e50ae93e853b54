//! A file-backed task tracker core: an outline parser that turns indented
//! issue lists into plans, fenced-block extraction and splicing, and the
//! single-walk project discovery that rebuilds the project hierarchy.

pub mod id_set;
pub mod generator;
pub mod issue;
pub mod text;
pub mod line;
pub mod plan;
pub mod parse;
pub mod block;
pub mod config;
pub mod document;
pub mod discovery;
pub mod file;
pub mod load;
pub mod placement;
pub mod project;
pub mod save;
pub mod settings;
pub mod target;
pub mod tracker;
