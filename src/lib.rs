//! A retained-mode UI core for small 1-bit-per-pixel panels: a reactive
//! signal graph, a slot-reusing element arena, a scene tree of drawable
//! elements, and a per-frame redraw orchestrator that repaints only the
//! damaged parts of a packed framebuffer.
pub mod arena;
pub mod context;
pub mod dirty;
pub mod elements;
pub mod framebuffer;
pub mod geometry;
pub mod glyph;
pub mod paint;
pub mod signals;
pub mod walk;

pub use arena::ArbitraryIdStore;
pub use context::{UIContext, PARTIAL_AREA_LIMIT, PARTIAL_ELEMENT_LIMIT};
pub use elements::{RectUIElement, TextUIElement, UIElement};
pub use framebuffer::{get_pixel_by_index, set_pixel, FRAME_BYTES, ROW_BYTES};
pub use geometry::{
    normalize_rect_to_screen, sweep_merge_rectangles, BoundingRect, SCREEN_HEIGHT, SCREEN_WIDTH,
};
pub use glyph::text_pixel;
pub use signals::{Listener, NodeKind, Notice, SignalGraph, Value};
pub use walk::TreeNode;
