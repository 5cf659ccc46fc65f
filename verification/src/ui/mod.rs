//! What the window shows and what its controls do.

pub mod context;
pub mod crawler;
pub mod finding;
pub mod generate;
pub mod library;
pub mod menu;
pub mod panel;
pub mod pipeline;
pub mod player;
pub mod queue;
pub mod sheet;
pub mod shell;
pub mod sorting;
