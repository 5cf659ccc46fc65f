//! Music as a navigable space: the logic of the 2kHz client.

pub mod api;
pub mod backend;
pub mod cli;
pub mod db;
pub mod engine;
pub mod frontier;
pub mod json;
pub mod logbuffer;
pub mod map;
pub mod ordering;
pub mod paths;
pub mod promises;
pub mod qobuz;
pub mod route;
pub mod script;
pub mod space;
pub mod stages;
pub mod strings;
pub mod text;
pub mod tokenizer;
pub mod tour;
pub mod ui;
pub mod wiring;
