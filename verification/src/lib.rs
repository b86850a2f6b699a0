pub mod app;
pub mod clock;
pub mod io;
pub mod platform;
pub mod renderer;
pub mod text;
pub mod ui;
