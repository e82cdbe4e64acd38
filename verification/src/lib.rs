//! A memory-mapped-framebuffer graphics and text-console core: a single owner
//! of a linear RGB pixel buffer with bounds-checked pixel and rectangle
//! operations, bitmap-font glyph rendering, vector primitives (line, circle,
//! triangle), and a scrolling text console built on top of them.
//!
//! Pixels are packed `0xAARRGGBB` integers (alpha ignored). Every write is
//! funnelled through a bounds check: coordinates outside the visible frame are
//! silently dropped, so a careless caller can never corrupt memory outside the
//! buffer.

pub mod console;
pub mod framebuffer;
pub mod glyph;
pub mod shapes;

pub use console::ConsoleError;
pub use console::ConsoleView;
pub use console::TextConsole;
pub use framebuffer::FbError;
pub use framebuffer::FbView;
pub use framebuffer::FramebufferDevice;
