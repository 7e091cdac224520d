//! Platform-agnostic text-editing core: a line-based document model with a
//! byte-accurate UTF-8 cursor, a debounced undo/redo history, and a line-wrap
//! layout cache that maps logical byte positions to screen-wrapped visual
//! positions.

pub mod actions;
pub mod buffer;
pub mod edit;
pub mod engine;
pub mod pos;
pub mod state;
pub mod text;
pub mod trusted;
pub mod wrap;

pub use actions::EditorAction;
pub use buffer::{CachedLineLayout, TextBuffer};
pub use engine::EditorEngine;
pub use pos::{BufferPosition, VisualPosition};
pub use wrap::{VisualLine, WrapType};
pub use state::EditorState;
