pub mod gpu_paint;
pub mod paint_pipeline;
pub mod preview;
pub mod texture;
