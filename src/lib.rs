//! A software rendering core: colours and alpha compositing, clip rectangles,
//! filled shapes (rectangles, rounded rectangles, thick lines, discs, and
//! polygons of either winding direction), three-colour disc sections, a frame
//! renderer with read-back, an image table with frame-deferred release, glyph
//! drawing of laid-out text (plain or cropped), a glyph cache, greedy text
//! layout, and a timer.

pub mod color;
pub mod expected;
pub mod geom;
pub mod glyph_cache;
pub mod polygon;
pub mod renderer;
pub mod shape;
pub mod text;
pub mod time;
