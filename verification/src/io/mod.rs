pub mod mesh_loader;
pub mod texture_png;
