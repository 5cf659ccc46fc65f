//! What the library promises, said of what goes in and what comes out.

pub mod answers;
pub mod catalog;
pub mod listening;
pub mod menus;
pub mod navigation;
pub mod picture;
pub mod reading;
pub mod replies;
pub mod running;
pub mod searching;
pub mod server;
pub mod shelves;
pub mod showing;
pub mod tokens;
pub mod ways;
pub mod wording;
