//! A character-cell compositing engine: glyph-grid sprites are compiled into
//! coloured pixels, staged on depth-ordered layers and flattened into one
//! frame buffer per frame.
pub mod color;
pub mod sprite;
pub mod framebuffer;
pub mod stack;
pub mod renderer;
pub mod laws;

pub use color::Color;
pub use sprite::{Pixel, Sprite, Metadata, SpriteError, compile_sprite, compile_grid};
pub use framebuffer::{FrameBuffer, SpriteVector, get_raw_index};
pub use stack::{Layer, LayerID, Layerstack};
pub use renderer::Renderer;
