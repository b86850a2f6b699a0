//! The decisions of the user interface that do not depend on how it is drawn.

pub mod layout;
pub mod shell;
