//! The session around the painter: undo history, recent projects and load requests.

pub mod history;
pub mod state;
pub mod project;
