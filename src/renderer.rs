use vstd::prelude::*;
use vstd::arithmetic::div_mod::{lemma_fundamental_div_mod_converse, lemma_multiply_divide_lt};
use crate::color::{Color, blend_spec, lemma_blend_transparent_and_opaque};
use crate::geom::{Rect, ClipStack, clips_admit};
use crate::shape::{Shape, shape_covers};
use crate::polygon::lemma_polygon_reverse_invariant;
use crate::text::{LaidOutText, TextLine};

verus! {

/// The layout of pixel bytes: four bytes per pixel (red, green, blue, alpha) or
/// three (red, green, blue).
#[derive(Clone, Copy, Debug, PartialEq, Eq, Structural)]
pub enum PixelFormat {
    RGBA,
    RGB,
}

/// The number of bytes that one pixel takes in the format.
pub open spec fn bytes_per_pixel(f: PixelFormat) -> nat {
    match f {
        PixelFormat::RGBA => 4,
        PixelFormat::RGB => 3,
    }
}

/// What can go wrong when rendering.
#[derive(Clone, Copy, Debug, PartialEq, Eq, Structural)]
pub enum RenderError {
    /// A call that needs an open frame was made outside one, or a frame was
    /// opened while another was open.
    InvalidState,
    /// A pixel buffer's length does not match its declared size and format.
    InvalidImageData,
    /// An image handle that names no live image.
    InvalidHandle,
}

/// Channel `k` of a colour, in the order red, green, blue, alpha.
pub open spec fn channel(c: Color, k: int) -> u8 {
    if k == 0 {
        c.r
    } else if k == 1 {
        c.g
    } else if k == 2 {
        c.b
    } else {
        c.a
    }
}

/// The bytes of a row-major pixel sequence laid out in the format.
pub open spec fn encode_pixels(pixels: Seq<Color>, f: PixelFormat) -> Seq<u8> {
    let bpp = bytes_per_pixel(f) as int;
    Seq::new((pixels.len() * bpp) as nat, |j: int| channel(pixels[j / bpp], j % bpp))
}

/// The colour that painting `color` over `under` leaves: a copy when
/// `replace`, else alpha-over compositing.
pub open spec fn paint_color(color: Color, under: Color, replace: bool) -> Color {
    if replace {
        color
    } else {
        blend_spec(color, under)
    }
}

/// Row-major pixels of width `width` after painting `color` on every pixel that
/// `shape` covers and the clip rectangles admit.
pub open spec fn paint_spec(
    pixels: Seq<Color>,
    width: nat,
    clips: Seq<Rect>,
    shape: Shape,
    color: Color,
    replace: bool,
) -> Seq<Color> {
    Seq::new(
        pixels.len(),
        |i: int|
            {
                let x = i % (width as int);
                let y = i / (width as int);
                if shape_covers(shape, x, y) && clips_admit(clips, x, y) {
                    paint_color(color, pixels[i], replace)
                } else {
                    pixels[i]
                }
            },
    )
}

/// Whether an effective clip, as [`ClipStack::effective`] returns it, admits a pixel.
pub open spec fn clip_option_admits(clip: Option<Rect>, x: int, y: int) -> bool {
    match clip {
        None => true,
        Some(c) => c.covers(x, y),
    }
}

proof fn lemma_pixel_coords(i: int, w: int, h: int)
    requires
        0 <= i < w * h,
        0 < w,
    ensures
        0 <= i % w < w,
        0 <= i / w < h,
{
    lemma_multiply_divide_lt(i, w, h);
    assert(0 <= i / w) by (nonlinear_arith)
        requires 0 <= i, 0 < w;
}


/// The bookkeeping of one slot of the image table.
#[derive(Clone, Copy, Debug, PartialEq, Eq, Structural)]
pub struct ImageMeta {
    pub width: u32,
    pub height: u32,
    /// How many application handles refer to the image.
    pub refs: u64,
    /// Whether a draw command of the open frame reads the image.
    pub in_use: bool,
    /// Whether the image's pixels are still held.
    pub live: bool,
}

/// A reference to an image of a [`Renderer`]'s image table.
#[derive(Clone, Copy, Debug, PartialEq, Eq, Structural)]
pub struct ImageHandle {
    index: usize,
}

impl ImageHandle {
    /// The slot of the image table that the handle names.
    pub closed spec fn index_spec(&self) -> int {
        self.index as int
    }

    /// The slot of the image table that the handle names.
    pub fn index(&self) -> (i: usize)
        ensures
            i == self.index_spec(),
    {
        self.index
    }
}

/// The colours that a buffer in `f` holds, one per `bytes_per_pixel(f)` bytes;
/// a buffer without alpha gives opaque colours.
pub open spec fn decode_pixels(data: Seq<u8>, f: PixelFormat) -> Seq<Color> {
    let bpp = bytes_per_pixel(f) as int;
    Seq::new(
        (data.len() as int / bpp) as nat,
        |i: int|
            Color {
                r: data[i * bpp],
                g: data[i * bpp + 1],
                b: data[i * bpp + 2],
                a: if f == PixelFormat::RGBA {
                    data[i * bpp + 3]
                } else {
                    255
                },
            },
    )
}

/// Row-major pixels of width `width` after compositing the image of size
/// `iw` by `ih` with its top left corner at `(ox, oy)`, within the clip.
pub open spec fn blit_spec(
    pixels: Seq<Color>,
    width: nat,
    clips: Seq<Rect>,
    image: Seq<Color>,
    iw: nat,
    ih: nat,
    ox: int,
    oy: int,
) -> Seq<Color> {
    Seq::new(
        pixels.len(),
        |i: int|
            {
                let x = i % (width as int);
                let y = i / (width as int);
                let u = x - ox;
                let v = y - oy;
                if 0 <= u < iw && 0 <= v < ih && clips_admit(clips, x, y) {
                    blend_spec(image[v * iw + u], pixels[i])
                } else {
                    pixels[i]
                }
            },
    )
}

/// The number of slots that still hold an image.
pub open spec fn live_count(meta: Seq<ImageMeta>) -> nat
    decreases meta.len(),
{
    if meta.len() == 0 {
        0
    } else {
        live_count(meta.drop_last()) + if meta.last().live {
            1nat
        } else {
            0nat
        }
    }
}

/// Slot bookkeeping after the open frame completes: no slot is in use, and a
/// slot that no handle refers to any more gives up its image.
pub open spec fn retire_spec(m: ImageMeta) -> ImageMeta {
    ImageMeta { in_use: false, live: m.live && m.refs > 0, ..m }
}

proof fn lemma_live_count_bound(meta: Seq<ImageMeta>)
    ensures
        live_count(meta) <= meta.len(),
    decreases meta.len(),
{
    if meta.len() > 0 {
        lemma_live_count_bound(meta.drop_last());
    }
}

proof fn lemma_live_count_push(meta: Seq<ImageMeta>, m: ImageMeta)
    ensures
        live_count(meta.push(m)) == live_count(meta) + if m.live {
            1nat
        } else {
            0nat
        },
{
    assert(meta.push(m).drop_last() =~= meta);
}

/// Compositing a fully transparent colour leaves every pixel as it was.
pub proof fn lemma_transparent_paint_is_identity(
    pixels: Seq<Color>,
    width: nat,
    clips: Seq<Rect>,
    shape: Shape,
    color: Color,
)
    requires
        color.a == 0,
    ensures
        paint_spec(pixels, width, clips, shape, color, false) == pixels,
{
    assert forall|i: int| 0 <= i < pixels.len() implies #[trigger] paint_spec(
        pixels,
        width,
        clips,
        shape,
        color,
        false,
    )[i] == pixels[i] by {
        lemma_blend_transparent_and_opaque(color, pixels[i]);
    }
    assert(paint_spec(pixels, width, clips, shape, color, false) =~= pixels);
}

/// Compositing a fully opaque colour gives the same pixels as copying it: each
/// pixel in the shape and the clip becomes exactly the source colour.
pub proof fn lemma_opaque_paint_replaces(
    pixels: Seq<Color>,
    width: nat,
    clips: Seq<Rect>,
    shape: Shape,
    color: Color,
)
    requires
        color.a == 255,
    ensures
        paint_spec(pixels, width, clips, shape, color, false) == paint_spec(
            pixels,
            width,
            clips,
            shape,
            color,
            true,
        ),
{
    assert forall|i: int| 0 <= i < pixels.len() implies #[trigger] paint_spec(
        pixels,
        width,
        clips,
        shape,
        color,
        false,
    )[i] == paint_spec(pixels, width, clips, shape, color, true)[i] by {
        lemma_blend_transparent_and_opaque(color, pixels[i]);
    }
    assert(paint_spec(pixels, width, clips, shape, color, false) =~= paint_spec(
        pixels,
        width,
        clips,
        shape,
        color,
        true,
    ));
}

/// A read-back of a `width` by `height` surface holds `width * height *
/// bytes_per_pixel(f)` bytes, and two read-backs of the same pixels are equal.
pub proof fn lemma_capture_size_and_repeatable(
    pixels: Seq<Color>,
    width: nat,
    height: nat,
    f: PixelFormat,
    first: Seq<u8>,
    second: Seq<u8>,
)
    requires
        pixels.len() == width * height,
        first == encode_pixels(pixels, f),
        second == encode_pixels(pixels, f),
    ensures
        first.len() == width * height * bytes_per_pixel(f),
        first == second,
{
}

/// Filling a polygon gives the same pixels whichever direction its vertices
/// run in.
pub proof fn lemma_polygon_paint_direction_invariant(
    pixels: Seq<Color>,
    width: nat,
    clips: Seq<Rect>,
    forward: Vec<(i32, i32)>,
    backward: Vec<(i32, i32)>,
    offset: (i32, i32),
    color: Color,
    replace: bool,
)
    requires
        backward@ == forward@.reverse(),
    ensures
        paint_spec(pixels, width, clips, Shape::Polygon { vertices: forward, offset }, color, replace) == paint_spec(
            pixels,
            width,
            clips,
            Shape::Polygon { vertices: backward, offset },
            color,
            replace,
        ),
{
    assert forall|x: int, y: int|
        shape_covers(Shape::Polygon { vertices: forward, offset }, x, y) == #[trigger] shape_covers(
            Shape::Polygon { vertices: backward, offset },
            x,
            y,
        ) by {
        lemma_polygon_reverse_invariant(forward@, x - offset.0, y - offset.1);
    }
    assert(paint_spec(pixels, width, clips, Shape::Polygon { vertices: forward, offset }, color, replace) =~= paint_spec(
        pixels,
        width,
        clips,
        Shape::Polygon { vertices: backward, offset },
        color,
        replace,
    ));
}

proof fn lemma_retire_keeps_held_images(meta: Seq<ImageMeta>)
    requires
        forall|i: int| 0 <= i < meta.len() && (#[trigger] meta[i]).live ==> meta[i].refs > 0,
    ensures
        live_count(meta.map_values(|m: ImageMeta| retire_spec(m))) == live_count(meta),
    decreases meta.len(),
{
    if meta.len() > 0 {
        let rest = meta.drop_last();
        assert(meta.map_values(|m: ImageMeta| retire_spec(m)).drop_last() =~= rest.map_values(
            |m: ImageMeta| retire_spec(m),
        ));
        assert forall|i: int| 0 <= i < rest.len() && (#[trigger] rest[i]).live implies rest[i].refs > 0 by {
            assert(rest[i] == meta[i]);
        }
        assert(meta[meta.len() - 1].live ==> meta[meta.len() - 1].refs > 0);
        lemma_retire_keeps_held_images(rest);
    }
}

/// Between frames, when every image still held has a handle, making an image,
/// drawing it, and giving up its only handle within one frame leaves, once the
/// frame ends, as many images held as there were before: the slot that the
/// cycle leaves behind (no handle, read by the frame) is released by the end
/// of the frame, and every other slot keeps its state.
pub proof fn lemma_image_cycle_restores_live_count(meta: Seq<ImageMeta>, width: u32, height: u32)
    requires
        forall|i: int| 0 <= i < meta.len() && (#[trigger] meta[i]).live ==> meta[i].refs > 0,
    ensures
        live_count(
            meta.push(ImageMeta { width, height, refs: 0, in_use: true, live: true }).map_values(
                |m: ImageMeta| retire_spec(m),
            ),
        ) == live_count(meta),
{
    let cycled = ImageMeta { width, height, refs: 0, in_use: true, live: true };
    let after = meta.push(cycled).map_values(|m: ImageMeta| retire_spec(m));
    assert(after =~= meta.map_values(|m: ImageMeta| retire_spec(m)).push(retire_spec(cycled)));
    lemma_live_count_push(meta.map_values(|m: ImageMeta| retire_spec(m)), retire_spec(cycled));
    lemma_retire_keeps_held_images(meta);
}

/// A rasterised glyph: `width * height` coverage values, row by row, whose top
/// left corner sits at `(left, top)` from the glyph's pen position on the baseline.
pub struct GlyphBitmap {
    pub id: u32,
    pub left: i32,
    pub top: i32,
    pub width: u32,
    pub height: u32,
    pub coverage: Vec<u8>,
}

/// `color` with its alpha scaled by the coverage `c` out of 255, rounded.
pub open spec fn covered_color(color: Color, c: u8) -> Color {
    Color { a: ((color.a as int * c as int + 127) / 255) as u8, ..color }
}

/// Row-major pixels of width `width` after compositing `color`, through the
/// coverage mask of size `mw` by `mh` with its top left corner at `(ox, oy)`,
/// within the clip.
pub open spec fn mask_spec(
    pixels: Seq<Color>,
    width: nat,
    clips: Seq<Rect>,
    coverage: Seq<u8>,
    mw: nat,
    mh: nat,
    ox: int,
    oy: int,
    color: Color,
) -> Seq<Color> {
    Seq::new(
        pixels.len(),
        |i: int|
            {
                let x = i % (width as int);
                let y = i / (width as int);
                let u = x - ox;
                let v = y - oy;
                if 0 <= u < mw && 0 <= v < mh && clips_admit(clips, x, y) {
                    blend_spec(covered_color(color, coverage[v * mw + u]), pixels[i])
                } else {
                    pixels[i]
                }
            },
    )
}

/// Where one glyph of laid-out text is drawn: its pen position on the
/// baseline, and its glyph id.
pub struct GlyphStamp {
    pub x: int,
    pub y: int,
    pub id: u32,
}

/// The glyph stamps of one line drawn with its origin at `origin`.
pub open spec fn line_stamps(line: TextLine, origin: (i32, i32)) -> Seq<GlyphStamp> {
    Seq::new(
        line.glyphs@.len(),
        |j: int|
            GlyphStamp {
                x: origin.0 + line.glyphs@[j].x,
                y: origin.1 + line.baseline_y,
                id: line.glyphs@[j].id,
            },
    )
}

/// The glyph stamps of all lines, line by line.
pub open spec fn text_stamps(lines: Seq<TextLine>, origin: (i32, i32)) -> Seq<GlyphStamp>
    decreases lines.len(),
{
    if lines.len() == 0 {
        Seq::empty()
    } else {
        text_stamps(lines.drop_last(), origin) + line_stamps(lines.last(), origin)
    }
}

/// The index of the first bitmap for glyph `id` from index `k` on, if any.
pub open spec fn bitmap_index(bitmaps: Seq<GlyphBitmap>, id: u32, k: int) -> Option<int>
    decreases bitmaps.len() - k,
{
    if k < 0 || k >= bitmaps.len() {
        None
    } else if bitmaps[k].id == id {
        Some(k)
    } else {
        bitmap_index(bitmaps, id, k + 1)
    }
}

/// Pixels after drawing one glyph stamp; a glyph without a bitmap draws nothing.
pub open spec fn stamp_spec(
    pixels: Seq<Color>,
    width: nat,
    clips: Seq<Rect>,
    bitmaps: Seq<GlyphBitmap>,
    color: Color,
    st: GlyphStamp,
) -> Seq<Color> {
    match bitmap_index(bitmaps, st.id, 0) {
        None => pixels,
        Some(b) => mask_spec(
            pixels,
            width,
            clips,
            bitmaps[b].coverage@,
            bitmaps[b].width as nat,
            bitmaps[b].height as nat,
            st.x + bitmaps[b].left,
            st.y + bitmaps[b].top,
            color,
        ),
    }
}

/// Pixels after drawing the stamps in order, later ones over earlier ones.
pub open spec fn stamps_spec(
    pixels: Seq<Color>,
    width: nat,
    clips: Seq<Rect>,
    bitmaps: Seq<GlyphBitmap>,
    color: Color,
    stamps: Seq<GlyphStamp>,
) -> Seq<Color>
    decreases stamps.len(),
{
    if stamps.len() == 0 {
        pixels
    } else {
        stamp_spec(
            stamps_spec(pixels, width, clips, bitmaps, color, stamps.drop_last()),
            width,
            clips,
            bitmaps,
            color,
            stamps.last(),
        )
    }
}

/// Every bitmap holds one coverage value per pixel.
pub open spec fn bitmaps_ok(bitmaps: Seq<GlyphBitmap>) -> bool {
    forall|b: int|
        0 <= b < bitmaps.len() ==> (#[trigger] bitmaps[b]).coverage@.len() == bitmaps[b].width as int
            * bitmaps[b].height as int
}

/// Every pen position and baseline of the text lies within 2^100 of the origin,
/// as those of text from `layout` do.
pub open spec fn text_in_range(t: LaidOutText) -> bool {
    forall|i: int|
        0 <= i < t.lines@.len() ==> {
            let l = #[trigger] t.lines@[i];
            &&& l.baseline_y <= 0x10_0000_0000_0000_0000_0000_0000
            &&& forall|j: int|
                0 <= j < l.glyphs@.len() ==> -0x10_0000_0000_0000_0000_0000_0000 <= (
                #[trigger] l.glyphs@[j]).x <= 0x10_0000_0000_0000_0000_0000_0000
        }
}

/// The twice-signed-area edge function of `p` against the edge from `a` to `b`.
pub open spec fn edge_fn(ax: int, ay: int, bx: int, by: int, px: int, py: int) -> int {
    (bx - ax) * (py - ay) - (by - ay) * (px - ax)
}

/// A triangle with a colour and a secondary `(u, v)` coordinate at each corner,
/// both interpolated linearly across it. A pixel is drawn when its centre lies
/// in the triangle and its interpolated `(u, v)` lies within the disc of radius
/// `unit` about the origin, so that the triangle can carry a section of a disc.
pub struct Sector {
    pub points: [(i16, i16); 3],
    pub colors: [Color; 3],
    pub uvs: [(i16, i16); 3],
    pub unit: u16,
}

/// The barycentric weights of the centre of pixel `(x, y)`, scaled by twice the
/// triangle's signed area (in doubled coordinates), followed by that area.
pub open spec fn sector_weights(s: Sector, x: int, y: int) -> (int, int, int, int) {
    let ax = 2 * s.points[0].0 as int;
    let ay = 2 * s.points[0].1 as int;
    let bx = 2 * s.points[1].0 as int;
    let by = 2 * s.points[1].1 as int;
    let cx = 2 * s.points[2].0 as int;
    let cy = 2 * s.points[2].1 as int;
    let px = 2 * x + 1;
    let py = 2 * y + 1;
    (
        edge_fn(bx, by, cx, cy, px, py),
        edge_fn(cx, cy, ax, ay, px, py),
        edge_fn(ax, ay, bx, by, px, py),
        edge_fn(ax, ay, bx, by, cx, cy),
    )
}

/// Whether the centre of pixel `(x, y)` lies within the triangle's bounding box.
pub open spec fn in_sector_box(s: Sector, x: int, y: int) -> bool {
    let px = 2 * x + 1;
    let py = 2 * y + 1;
    let xs = (2 * s.points[0].0 as int, 2 * s.points[1].0 as int, 2 * s.points[2].0 as int);
    let ys = (2 * s.points[0].1 as int, 2 * s.points[1].1 as int, 2 * s.points[2].1 as int);
    (px >= xs.0 || px >= xs.1 || px >= xs.2) && (px <= xs.0 || px <= xs.1 || px <= xs.2) && (py
        >= ys.0 || py >= ys.1 || py >= ys.2) && (py <= ys.0 || py <= ys.1 || py <= ys.2)
}

/// Whether the sector draws pixel `(x, y)`: its centre is in the (non-degenerate)
/// triangle, edges included, and its interpolated `(u, v)` is within `unit` of
/// the origin.
pub open spec fn sector_covers(s: Sector, x: int, y: int) -> bool {
    let (w0, w1, w2, area) = sector_weights(s, x, y);
    let u = w0 * s.uvs[0].0 + w1 * s.uvs[1].0 + w2 * s.uvs[2].0;
    let v = w0 * s.uvs[0].1 + w1 * s.uvs[1].1 + w2 * s.uvs[2].1;
    &&& in_sector_box(s, x, y)
    &&& area != 0
    &&& (area > 0 ==> w0 >= 0 && w1 >= 0 && w2 >= 0)
    &&& (area < 0 ==> w0 <= 0 && w1 <= 0 && w2 <= 0)
    &&& u * u + v * v <= (s.unit as int * s.unit as int) * (area * area)
}

/// A channel interpolated from the three corners' values with non-negative
/// weights summing to `total`, rounded to the nearest integer.
pub open spec fn interpolate(a: u8, b: u8, c: u8, w0: int, w1: int, w2: int, total: int) -> int {
    (w0 * a + w1 * b + w2 * c + total / 2) / total
}

/// The interpolated colour at pixel `(x, y)` of a sector that covers it.
pub open spec fn sector_color(s: Sector, x: int, y: int) -> Color {
    let (w0, w1, w2, area) = sector_weights(s, x, y);
    let (a0, a1, a2, t) = if area > 0 {
        (w0, w1, w2, area)
    } else {
        (-w0, -w1, -w2, -area)
    };
    Color {
        r: interpolate(s.colors[0].r, s.colors[1].r, s.colors[2].r, a0, a1, a2, t) as u8,
        g: interpolate(s.colors[0].g, s.colors[1].g, s.colors[2].g, a0, a1, a2, t) as u8,
        b: interpolate(s.colors[0].b, s.colors[1].b, s.colors[2].b, a0, a1, a2, t) as u8,
        a: interpolate(s.colors[0].a, s.colors[1].a, s.colors[2].a, a0, a1, a2, t) as u8,
    }
}

/// Row-major pixels of width `width` after compositing the sector within the clip.
pub open spec fn sector_spec(pixels: Seq<Color>, width: nat, clips: Seq<Rect>, s: Sector) -> Seq<Color> {
    Seq::new(
        pixels.len(),
        |i: int|
            {
                let x = i % (width as int);
                let y = i / (width as int);
                if sector_covers(s, x, y) && clips_admit(clips, x, y) {
                    blend_spec(sector_color(s, x, y), pixels[i])
                } else {
                    pixels[i]
                }
            },
    )
}

proof fn lemma_barycentric_sum(ax: int, ay: int, bx: int, by: int, cx: int, cy: int, px: int, py: int)
    ensures
        edge_fn(bx, by, cx, cy, px, py) + edge_fn(cx, cy, ax, ay, px, py) + edge_fn(ax, ay, bx, by, px, py)
            == edge_fn(ax, ay, bx, by, cx, cy),
{
    lemma_edge_expand(bx, by, cx, cy, px, py);
    lemma_edge_expand(cx, cy, ax, ay, px, py);
    lemma_edge_expand(ax, ay, bx, by, px, py);
    lemma_edge_expand(ax, ay, bx, by, cx, cy);
    assert(px * by == by * px && px * cy == cy * px && px * ay == ay * px) by (nonlinear_arith);
    assert(cx * by == by * cx && bx * cy == cy * bx && ax * cy == cy * ax) by (nonlinear_arith);
    assert(cx * ay == ay * cx && bx * ay == ay * bx && ax * by == by * ax) by (nonlinear_arith);
}

proof fn lemma_edge_expand(ax: int, ay: int, bx: int, by: int, px: int, py: int)
    ensures
        edge_fn(ax, ay, bx, by, px, py) == bx * py - bx * ay - ax * py - px * by + ax * by + px * ay,
{
    assert((bx - ax) * (py - ay) == bx * py - bx * ay - ax * py + ax * ay) by (nonlinear_arith);
    assert((by - ay) * (px - ax) == px * by - ax * by - px * ay + ax * ay) by (nonlinear_arith);
}

fn interpolate_exec(a: u8, b: u8, c: u8, w0: i128, w1: i128, w2: i128, total: i128) -> (r: u8)
    requires
        0 <= w0 <= 0x40_0000_0000,
        0 <= w1 <= 0x40_0000_0000,
        0 <= w2 <= 0x40_0000_0000,
        w0 + w1 + w2 == total,
        total > 0,
    ensures
        r == interpolate(a, b, c, w0 as int, w1 as int, w2 as int, total as int),
{
    assert(0 <= w0 * a <= w0 * 255) by (nonlinear_arith)
        requires 0 <= w0, 0 <= a <= 255;
    assert(0 <= w1 * b <= w1 * 255) by (nonlinear_arith)
        requires 0 <= w1, 0 <= b <= 255;
    assert(0 <= w2 * c <= w2 * 255) by (nonlinear_arith)
        requires 0 <= w2, 0 <= c <= 255;
    let sum = w0 * (a as i128) + w1 * (b as i128) + w2 * (c as i128) + total / 2;
    assert(sum < 256 * total);
    let q = sum / total;
    assert(q < 256) by (nonlinear_arith)
        requires q == sum / total, 0 <= sum < 256 * total, total > 0;
    q as u8
}

/// A surface of `width * height` pixels together with the frame state, the
/// clip stack and the image table.
pub struct Renderer {
    width: u32,
    height: u32,
    pixels: Vec<Color>,
    frame_open: bool,
    clips: ClipStack,
    image_meta: Vec<ImageMeta>,
    image_pixels: Vec<Vec<Color>>,
}

impl Renderer {
    /// The surface's width in pixels.
    pub closed spec fn width_spec(&self) -> nat {
        self.width as nat
    }

    /// The surface's height in pixels.
    pub closed spec fn height_spec(&self) -> nat {
        self.height as nat
    }

    /// The pixels, row by row from the top.
    pub closed spec fn pixels_spec(&self) -> Seq<Color> {
        self.pixels@
    }

    /// Whether a frame is open.
    pub closed spec fn frame_open_spec(&self) -> bool {
        self.frame_open
    }

    /// The active clip rectangles, outermost first.
    pub closed spec fn clips_spec(&self) -> Seq<Rect> {
        self.clips@
    }

    /// The image table's bookkeeping, one entry per slot.
    pub closed spec fn images_spec(&self) -> Seq<ImageMeta> {
        self.image_meta@
    }

    /// The pixels of the image in slot `i`, row by row from the top.
    pub closed spec fn image_pixels_spec(&self, i: int) -> Seq<Color> {
        self.image_pixels@[i]@
    }

    /// Whether `h` names an image that an application handle still refers to.
    pub open spec fn handle_valid(&self, h: ImageHandle) -> bool {
        &&& 0 <= h.index_spec() < self.images_spec().len()
        &&& self.images_spec()[h.index_spec()].live
        &&& self.images_spec()[h.index_spec()].refs > 0
    }

    /// Whether the two renderers hold the same image table.
    pub open spec fn same_images(&self, other: &Renderer) -> bool {
        &&& self.images_spec() == other.images_spec()
        &&& forall|i: int|
            0 <= i < self.images_spec().len() ==> #[trigger] self.image_pixels_spec(i)
                == other.image_pixels_spec(i)
    }

    /// The renderer's internal consistency.
    pub closed spec fn wf(&self) -> bool {
        &&& self.pixels@.len() == self.width as int * self.height as int
        &&& self.width as int * self.height as int * 4 <= usize::MAX
        &&& self.image_meta@.len() == self.image_pixels@.len()
        &&& forall|i: int|
            0 <= i < self.image_meta@.len() ==> {
                let m = #[trigger] self.image_meta@[i];
                &&& m.live ==> self.image_pixels@[i]@.len() == m.width as int * m.height as int
                &&& !m.live ==> m.refs == 0 && !m.in_use
            }
    }

    /// The colour of pixel `(x, y)`.
    pub open spec fn pixel_at(&self, x: int, y: int) -> Color {
        self.pixels_spec()[y * self.width_spec() + x]
    }

    /// A surface of `width` by `height` transparent black pixels, with no frame open.
    pub fn new(width: u32, height: u32) -> (r: Renderer)
        requires
            width as int * height as int * 4 <= usize::MAX,
        ensures
            r.wf(),
            r.width_spec() == width,
            r.height_spec() == height,
            r.pixels_spec() == Seq::new(
                (width * height) as nat,
                |i: int| Color { r: 0, g: 0, b: 0, a: 0 },
            ),
            !r.frame_open_spec(),
            r.clips_spec() == Seq::<Rect>::empty(),
            r.images_spec() == Seq::<ImageMeta>::empty(),
    {
        let n = (width as usize) * (height as usize);
        let mut pixels: Vec<Color> = Vec::new();
        let mut i: usize = 0;
        while i < n
            invariant
                i <= n,
                pixels@ == Seq::new(i as nat, |j: int| Color { r: 0, g: 0, b: 0, a: 0 }),
            decreases n - i,
        {
            pixels.push(Color { r: 0, g: 0, b: 0, a: 0 });
            i = i + 1;
            assert(pixels@ =~= Seq::new(i as nat, |j: int| Color { r: 0, g: 0, b: 0, a: 0 }));
        }
        assert(pixels@ =~= Seq::new(
            (width * height) as nat,
            |i: int| Color { r: 0, g: 0, b: 0, a: 0 },
        ));
        Renderer {
            width,
            height,
            pixels,
            frame_open: false,
            clips: ClipStack::new(),
            image_meta: Vec::new(),
            image_pixels: Vec::new(),
        }
    }

    /// The surface's width in pixels.
    pub fn width(&self) -> (w: u32)
        ensures
            w == self.width_spec(),
    {
        self.width
    }

    /// The surface's height in pixels.
    pub fn height(&self) -> (h: u32)
        ensures
            h == self.height_spec(),
    {
        self.height
    }

    /// Whether a frame is open.
    pub fn is_frame_open(&self) -> (b: bool)
        ensures
            b == self.frame_open_spec(),
    {
        self.frame_open
    }

    /// Opens a frame with no clip. Fails with `InvalidState` if one is open already.
    pub fn begin_frame(&mut self) -> (r: Result<(), RenderError>)
        ensures
            old(self).frame_open_spec() ==> r == Err::<(), RenderError>(RenderError::InvalidState)
                && *final(self) == *old(self),
            !old(self).frame_open_spec() ==> r is Ok && final(self).frame_open_spec()
                && final(self).clips_spec() == Seq::<Rect>::empty()
                && final(self).pixels_spec() == old(self).pixels_spec()
                && final(self).width_spec() == old(self).width_spec()
                && final(self).height_spec() == old(self).height_spec(),
            old(self).wf() ==> final(self).wf(),
            final(self).same_images(&*old(self)),
    {
        if self.frame_open {
            return Err(RenderError::InvalidState);
        }
        self.frame_open = true;
        self.clips.clear();
        Ok(())
    }

    /// Closes the open frame. Every image that no application handle refers to
    /// any more is released now, after the last frame that drew it has completed.
    /// Fails with `InvalidState` if no frame is open.
    pub fn end_frame(&mut self) -> (r: Result<(), RenderError>)
        requires
            old(self).wf(),
        ensures
            final(self).wf(),
            !old(self).frame_open_spec() ==> r == Err::<(), RenderError>(RenderError::InvalidState)
                && *final(self) == *old(self),
            old(self).frame_open_spec() ==> r is Ok && !final(self).frame_open_spec()
                && final(self).clips_spec() == Seq::<Rect>::empty()
                && final(self).pixels_spec() == old(self).pixels_spec()
                && final(self).width_spec() == old(self).width_spec()
                && final(self).height_spec() == old(self).height_spec()
                && final(self).images_spec() == old(self).images_spec().map_values(
                |m: ImageMeta| retire_spec(m),
            ) && forall|i: int|
                0 <= i < old(self).images_spec().len() && final(self).images_spec()[i].live
                    ==> #[trigger] final(self).image_pixels_spec(i) == old(
                    self,
                ).image_pixels_spec(i),
    {
        if !self.frame_open {
            return Err(RenderError::InvalidState);
        }
        self.frame_open = false;
        self.clips.clear();
        let ghost before = self.image_meta@;
        let ghost before_pixels = self.image_pixels@;
        let n = self.image_meta.len();
        let mut i: usize = 0;
        while i < n
            invariant
                self.wf(),
                n == self.image_meta@.len(),
                before.len() == n,
                i <= n,
                !self.frame_open,
                self.clips@ == Seq::<Rect>::empty(),
                self.pixels@ == old(self).pixels@,
                self.width == old(self).width,
                self.height == old(self).height,
                before == old(self).image_meta@,
                before_pixels == old(self).image_pixels@,
                forall|j: int| 0 <= j < i ==> self.image_meta@[j] == retire_spec(before[j]),
                forall|j: int| i <= j < n ==> self.image_meta@[j] == before[j],
                forall|j: int|
                    0 <= j < n && self.image_meta@[j].live ==> #[trigger] self.image_pixels@[j]
                        == before_pixels[j],
            decreases n - i,
        {
            let m = self.image_meta[i];
            if m.live && m.refs == 0 {
                self.image_pixels.set(i, Vec::new());
            }
            self.image_meta.set(i, ImageMeta { in_use: false, live: m.live && m.refs > 0, ..m });
            i = i + 1;
        }
        assert(self.image_meta@ =~= before.map_values(|m: ImageMeta| retire_spec(m)));
        Ok(())
    }

    /// Replaces every active clip by `clip`, or removes them all for `None`.
    /// Fails with `InvalidState` outside a frame.
    pub fn set_clip(&mut self, clip: Option<Rect>) -> (r: Result<(), RenderError>)
        ensures
            !old(self).frame_open_spec() ==> r == Err::<(), RenderError>(RenderError::InvalidState)
                && *final(self) == *old(self),
            old(self).frame_open_spec() ==> r is Ok && final(self).clips_spec() == (match clip {
                None => Seq::<Rect>::empty(),
                Some(c) => seq![c],
            }) && final(self).pixels_spec() == old(self).pixels_spec()
                && final(self).frame_open_spec()
                && final(self).width_spec() == old(self).width_spec()
                && final(self).height_spec() == old(self).height_spec(),
            old(self).wf() ==> final(self).wf(),
            final(self).same_images(&*old(self)),
    {
        if !self.frame_open {
            return Err(RenderError::InvalidState);
        }
        self.clips.clear();
        match clip {
            None => {},
            Some(c) => {
                self.clips.push(c);
                assert(self.clips@ =~= seq![c]);
            },
        }
        Ok(())
    }

    /// Narrows the clip by one more rectangle. Fails with `InvalidState` outside a frame.
    pub fn push_clip(&mut self, clip: Rect) -> (r: Result<(), RenderError>)
        ensures
            !old(self).frame_open_spec() ==> r == Err::<(), RenderError>(RenderError::InvalidState)
                && *final(self) == *old(self),
            old(self).frame_open_spec() ==> r is Ok && final(self).clips_spec() == old(
                self,
            ).clips_spec().push(clip) && final(self).pixels_spec() == old(self).pixels_spec()
                && final(self).frame_open_spec()
                && final(self).width_spec() == old(self).width_spec()
                && final(self).height_spec() == old(self).height_spec(),
            old(self).wf() ==> final(self).wf(),
            final(self).same_images(&*old(self)),
    {
        if !self.frame_open {
            return Err(RenderError::InvalidState);
        }
        self.clips.push(clip);
        Ok(())
    }

    /// Removes the innermost clip rectangle, if any. Fails with `InvalidState`
    /// outside a frame.
    pub fn pop_clip(&mut self) -> (r: Result<Option<Rect>, RenderError>)
        ensures
            !old(self).frame_open_spec() ==> r == Err::<Option<Rect>, RenderError>(
                RenderError::InvalidState,
            ) && *final(self) == *old(self),
            old(self).frame_open_spec() && old(self).clips_spec().len() == 0 ==> r == Ok::<
                Option<Rect>,
                RenderError,
            >(None) && final(self).clips_spec() == old(self).clips_spec(),
            old(self).frame_open_spec() && old(self).clips_spec().len() > 0 ==> r == Ok::<
                Option<Rect>,
                RenderError,
            >(Some(old(self).clips_spec().last())) && final(self).clips_spec() == old(
                self,
            ).clips_spec().drop_last(),
            old(self).frame_open_spec() ==> final(self).pixels_spec() == old(self).pixels_spec()
                && final(self).frame_open_spec()
                && final(self).width_spec() == old(self).width_spec()
                && final(self).height_spec() == old(self).height_spec(),
            old(self).wf() ==> final(self).wf(),
            final(self).same_images(&*old(self)),
    {
        if !self.frame_open {
            return Err(RenderError::InvalidState);
        }
        Ok(self.clips.pop())
    }

    /// Paints `color` on every pixel that `shape` covers and the clip admits.
    fn paint(&mut self, shape: &Shape, color: Color, replace: bool)
        requires
            old(self).wf(),
        ensures
            final(self).wf(),
            final(self).width == old(self).width,
            final(self).height == old(self).height,
            final(self).frame_open == old(self).frame_open,
            final(self).clips@ == old(self).clips@,
            final(self).pixels@ == paint_spec(
                old(self).pixels@,
                old(self).width as nat,
                old(self).clips@,
                *shape,
                color,
                replace,
            ),
            final(self).image_meta@ == old(self).image_meta@,
            final(self).image_pixels@ == old(self).image_pixels@,
    {
        let clip = self.clips.effective();
        let ghost clips = self.clips@;
        let ghost before = self.pixels@;
        let ghost target = paint_spec(before, self.width as nat, clips, *shape, color, replace);
        let n = self.pixels.len();
        let w = self.width as usize;
        let mut i: usize = 0;
        while i < n
            invariant
                self.wf(),
                n == self.pixels@.len(),
                n == before.len(),
                w == self.width,
                self.width == old(self).width,
                self.height == old(self).height,
                self.frame_open == old(self).frame_open,
                self.clips@ == clips,
                clips == old(self).clips@,
                self.image_meta@ == old(self).image_meta@,
                self.image_pixels@ == old(self).image_pixels@,
                before == old(self).pixels@,
                target == paint_spec(before, self.width as nat, clips, *shape, color, replace),
                clips.len() == 0 <==> clip is None,
                clip matches Some(c) ==> forall|x: int, y: int|
                    c.covers(x, y) <==> clips_admit(clips, x, y),
                i <= n,
                forall|j: int| 0 <= j < i ==> self.pixels@[j] == target[j],
                forall|j: int| i <= j < n ==> self.pixels@[j] == before[j],
            decreases n - i,
        {
            proof {
                lemma_pixel_coords(i as int, w as int, self.height as int);
            }
            let x = (i % w) as i64;
            let y = (i / w) as i64;
            let admitted = match clip {
                None => true,
                Some(c) => c.x0 as i64 <= x && x < c.x1 as i64 && c.y0 as i64 <= y && y
                    < c.y1 as i64,
            };
            proof {
                if clips.len() == 0 {
                    assert(clips_admit(clips, x as int, y as int));
                }
            }
            if admitted && shape.covers(x, y) {
                let under = self.pixels[i];
                let c = if replace {
                    color
                } else {
                    color.blend_over(under)
                };
                self.pixels.set(i, c);
            }
            i = i + 1;
        }
        assert(self.pixels@ =~= target);
    }

    /// Sets every pixel that the clip admits to `color`, replacing what was there.
    /// Fails with `InvalidState` outside a frame.
    pub fn clear_screen(&mut self, color: Color) -> (r: Result<(), RenderError>)
        requires
            old(self).wf(),
        ensures
            final(self).wf(),
            !old(self).frame_open_spec() ==> r == Err::<(), RenderError>(RenderError::InvalidState)
                && *final(self) == *old(self),
            old(self).frame_open_spec() ==> r is Ok && final(self).pixels_spec() == paint_spec(
                old(self).pixels_spec(),
                old(self).width_spec(),
                old(self).clips_spec(),
                Shape::Everything,
                color,
                true,
            ),
            final(self).frame_open_spec() == old(self).frame_open_spec(),
            final(self).clips_spec() == old(self).clips_spec(),
            final(self).width_spec() == old(self).width_spec(),
            final(self).height_spec() == old(self).height_spec(),
            final(self).same_images(&*old(self)),
    {
        if !self.frame_open {
            return Err(RenderError::InvalidState);
        }
        self.paint(&Shape::Everything, color, true);
        Ok(())
    }

    /// Composites a filled shape in `color` over the clipped surface.
    /// Fails with `InvalidState` outside a frame.
    pub fn draw_shape(&mut self, shape: &Shape, color: Color) -> (r: Result<(), RenderError>)
        requires
            old(self).wf(),
        ensures
            final(self).wf(),
            !old(self).frame_open_spec() ==> r == Err::<(), RenderError>(RenderError::InvalidState)
                && *final(self) == *old(self),
            old(self).frame_open_spec() ==> r is Ok && final(self).pixels_spec() == paint_spec(
                old(self).pixels_spec(),
                old(self).width_spec(),
                old(self).clips_spec(),
                *shape,
                color,
                false,
            ),
            final(self).frame_open_spec() == old(self).frame_open_spec(),
            final(self).clips_spec() == old(self).clips_spec(),
            final(self).width_spec() == old(self).width_spec(),
            final(self).height_spec() == old(self).height_spec(),
            final(self).same_images(&*old(self)),
    {
        if !self.frame_open {
            return Err(RenderError::InvalidState);
        }
        self.paint(shape, color, false);
        Ok(())
    }

    /// Composites the rectangle `rect` in `color` over the clipped surface.
    /// Fails with `InvalidState` outside a frame.
    pub fn draw_rectangle(&mut self, rect: Rect, color: Color) -> (r: Result<(), RenderError>)
        requires
            old(self).wf(),
        ensures
            final(self).wf(),
            !old(self).frame_open_spec() ==> r == Err::<(), RenderError>(RenderError::InvalidState)
                && *final(self) == *old(self),
            old(self).frame_open_spec() ==> r is Ok && final(self).pixels_spec() == paint_spec(
                old(self).pixels_spec(),
                old(self).width_spec(),
                old(self).clips_spec(),
                Shape::Rectangle(rect),
                color,
                false,
            ),
            final(self).frame_open_spec() == old(self).frame_open_spec(),
            final(self).clips_spec() == old(self).clips_spec(),
            final(self).width_spec() == old(self).width_spec(),
            final(self).height_spec() == old(self).height_spec(),
            final(self).same_images(&*old(self)),
    {
        self.draw_shape(&Shape::Rectangle(rect), color)
    }

    /// Composites the polygon with vertices `vertices`, moved by `offset`, in
    /// `color` over the clipped surface. Fails with `InvalidState` outside a frame.
    pub fn draw_polygon(&mut self, vertices: Vec<(i32, i32)>, offset: (i32, i32), color: Color) -> (r: Result<
        (),
        RenderError,
    >)
        requires
            old(self).wf(),
        ensures
            final(self).wf(),
            !old(self).frame_open_spec() ==> r == Err::<(), RenderError>(RenderError::InvalidState)
                && *final(self) == *old(self),
            old(self).frame_open_spec() ==> r is Ok && final(self).pixels_spec() == paint_spec(
                old(self).pixels_spec(),
                old(self).width_spec(),
                old(self).clips_spec(),
                Shape::Polygon { vertices, offset },
                color,
                false,
            ),
            final(self).frame_open_spec() == old(self).frame_open_spec(),
            final(self).clips_spec() == old(self).clips_spec(),
            final(self).width_spec() == old(self).width_spec(),
            final(self).height_spec() == old(self).height_spec(),
            final(self).same_images(&*old(self)),
    {
        self.draw_shape(&Shape::Polygon { vertices, offset }, color)
    }

    /// Composites the rectangle `rect`, its corners rounded off by quarter
    /// discs of `radius`, in `color` over the clipped surface. Fails with
    /// `InvalidState` outside a frame.
    pub fn draw_rounded_rectangle(&mut self, rect: Rect, radius: i32, color: Color) -> (r: Result<
        (),
        RenderError,
    >)
        requires
            old(self).wf(),
        ensures
            final(self).wf(),
            !old(self).frame_open_spec() ==> r == Err::<(), RenderError>(RenderError::InvalidState)
                && *final(self) == *old(self),
            old(self).frame_open_spec() ==> r is Ok && final(self).pixels_spec() == paint_spec(
                old(self).pixels_spec(),
                old(self).width_spec(),
                old(self).clips_spec(),
                Shape::RoundedRectangle(rect, radius),
                color,
                false,
            ),
            final(self).frame_open_spec() == old(self).frame_open_spec(),
            final(self).clips_spec() == old(self).clips_spec(),
            final(self).width_spec() == old(self).width_spec(),
            final(self).height_spec() == old(self).height_spec(),
            final(self).same_images(&*old(self)),
    {
        self.draw_shape(&Shape::RoundedRectangle(rect, radius), color)
    }

    /// Composites a line from `from` to `to` of the given thickness in `color`
    /// over the clipped surface. Fails with `InvalidState` outside a frame.
    pub fn draw_line(&mut self, from: (i16, i16), to: (i16, i16), thickness: u16, color: Color) -> (r:
        Result<(), RenderError>)
        requires
            old(self).wf(),
        ensures
            final(self).wf(),
            !old(self).frame_open_spec() ==> r == Err::<(), RenderError>(RenderError::InvalidState)
                && *final(self) == *old(self),
            old(self).frame_open_spec() ==> r is Ok && final(self).pixels_spec() == paint_spec(
                old(self).pixels_spec(),
                old(self).width_spec(),
                old(self).clips_spec(),
                Shape::Line { from, to, thickness },
                color,
                false,
            ),
            final(self).frame_open_spec() == old(self).frame_open_spec(),
            final(self).clips_spec() == old(self).clips_spec(),
            final(self).width_spec() == old(self).width_spec(),
            final(self).height_spec() == old(self).height_spec(),
            final(self).same_images(&*old(self)),
    {
        self.draw_shape(&Shape::Line { from, to, thickness }, color)
    }

    /// Composites a disc of the given centre and radius in `color` over the
    /// clipped surface. Fails with `InvalidState` outside a frame.
    pub fn draw_circle(&mut self, center: (i32, i32), radius: i32, color: Color) -> (r: Result<
        (),
        RenderError,
    >)
        requires
            old(self).wf(),
        ensures
            final(self).wf(),
            !old(self).frame_open_spec() ==> r == Err::<(), RenderError>(RenderError::InvalidState)
                && *final(self) == *old(self),
            old(self).frame_open_spec() ==> r is Ok && final(self).pixels_spec() == paint_spec(
                old(self).pixels_spec(),
                old(self).width_spec(),
                old(self).clips_spec(),
                Shape::Circle { cx: center.0, cy: center.1, radius },
                color,
                false,
            ),
            final(self).frame_open_spec() == old(self).frame_open_spec(),
            final(self).clips_spec() == old(self).clips_spec(),
            final(self).width_spec() == old(self).width_spec(),
            final(self).height_spec() == old(self).height_spec(),
            final(self).same_images(&*old(self)),
    {
        self.draw_shape(&Shape::Circle { cx: center.0, cy: center.1, radius }, color)
    }

    /// Adds an image of `width` by `height` pixels whose bytes `data` are laid
    /// out in `format`, referred to by the one handle returned. Fails with
    /// `InvalidImageData`, adding nothing, when the length of `data` is not
    /// `width * height * bytes_per_pixel(format)`.
    pub fn create_image(
        &mut self,
        format: PixelFormat,
        width: u32,
        height: u32,
        data: &Vec<u8>,
    ) -> (r: Result<ImageHandle, RenderError>)
        requires
            old(self).wf(),
        ensures
            final(self).wf(),
            data@.len() != width as int * height as int * bytes_per_pixel(format) ==> r == Err::<
                ImageHandle,
                RenderError,
            >(RenderError::InvalidImageData) && *final(self) == *old(self),
            data@.len() == width as int * height as int * bytes_per_pixel(format) ==> (r matches Ok(
                h,
            ) && h.index_spec() == old(self).images_spec().len() && final(self).images_spec()
                == old(self).images_spec().push(
                ImageMeta { width, height, refs: 1, in_use: false, live: true },
            ) && final(self).image_pixels_spec(h.index_spec()) == decode_pixels(data@, format)
                && final(self).handle_valid(h)),
            forall|i: int|
                0 <= i < old(self).images_spec().len() ==> #[trigger] final(self).image_pixels_spec(
                    i,
                ) == old(self).image_pixels_spec(i),
            final(self).pixels_spec() == old(self).pixels_spec(),
            final(self).frame_open_spec() == old(self).frame_open_spec(),
            final(self).clips_spec() == old(self).clips_spec(),
            final(self).width_spec() == old(self).width_spec(),
            final(self).height_spec() == old(self).height_spec(),
    {
        let bpp: usize = match format {
            PixelFormat::RGBA => 4,
            PixelFormat::RGB => 3,
        };
        let w128 = width as u128;
        let h128 = height as u128;
        assert(w128 * h128 <= 0xffff_ffff_ffff_ffff) by (nonlinear_arith)
            requires w128 <= 0xffff_ffff, h128 <= 0xffff_ffff;
        assert(w128 * h128 * 4 <= 0x4_0000_0000_0000_0000) by (nonlinear_arith)
            requires w128 * h128 <= 0xffff_ffff_ffff_ffff;
        let expected: u128 = w128 * h128 * (bpp as u128);
        if data.len() as u128 != expected {
            return Err(RenderError::InvalidImageData);
        }
        assert(width as int * height as int <= width as int * height as int * bpp) by (
        nonlinear_arith)
            requires bpp >= 1, width >= 0, height >= 0;
        let npix = (width as usize) * (height as usize);
        let ghost target = decode_pixels(data@, format);
        proof {
            lemma_fundamental_div_mod_converse(data@.len() as int, bpp as int, npix as int, 0);
        }
        let dl = data.len();
        let mut out: Vec<Color> = Vec::new();
        let mut i: usize = 0;
        while i < npix
            invariant
                dl == data@.len(),
                i <= npix,
                bpp == bytes_per_pixel(format),
                data@.len() == npix * bpp,
                target == decode_pixels(data@, format),
                target.len() == npix,
                out@.len() == i,
                forall|j: int| 0 <= j < i ==> out@[j] == target[j],
            decreases npix - i,
        {
            assert(i * bpp + bpp <= npix * bpp) by (nonlinear_arith)
                requires i < npix, bpp > 0;
            assert(i * bpp + bpp == (i + 1) * bpp) by (nonlinear_arith);
            let k = i * bpp;
            let a = match format {
                PixelFormat::RGBA => data[k + 3],
                PixelFormat::RGB => 255u8,
            };
            out.push(Color { r: data[k], g: data[k + 1], b: data[k + 2], a });
            i = i + 1;
        }
        assert(out@ =~= target);
        let index = self.image_meta.len();
        self.image_meta.push(ImageMeta { width, height, refs: 1, in_use: false, live: true });
        self.image_pixels.push(out);
        proof {
            assert forall|j: int| 0 <= j < self.image_meta@.len() implies {
                let m = #[trigger] self.image_meta@[j];
                &&& m.live ==> self.image_pixels@[j]@.len() == m.width as int * m.height as int
                &&& !m.live ==> m.refs == 0 && !m.in_use
            } by {
                if j < index {
                    assert(self.image_meta@[j] == old(self).image_meta@[j]);
                }
            }
        }
        Ok(ImageHandle { index })
    }

    /// Adds one more application reference to the image. Fails with
    /// `InvalidHandle` when the handle names no image still referred to.
    pub fn retain_image(&mut self, h: ImageHandle) -> (r: Result<(), RenderError>)
        requires
            old(self).wf(),
            old(self).handle_valid(h) ==> old(self).images_spec()[h.index_spec()].refs < u64::MAX,
        ensures
            final(self).wf(),
            !old(self).handle_valid(h) ==> r == Err::<(), RenderError>(RenderError::InvalidHandle)
                && *final(self) == *old(self),
            old(self).handle_valid(h) ==> r is Ok && final(self).images_spec() == old(
                self,
            ).images_spec().update(
                h.index_spec(),
                ImageMeta {
                    refs: (old(self).images_spec()[h.index_spec()].refs + 1) as u64,
                    ..old(self).images_spec()[h.index_spec()]
                },
            ),
            forall|i: int|
                0 <= i < old(self).images_spec().len() ==> #[trigger] final(self).image_pixels_spec(
                    i,
                ) == old(self).image_pixels_spec(i),
            final(self).pixels_spec() == old(self).pixels_spec(),
            final(self).frame_open_spec() == old(self).frame_open_spec(),
            final(self).clips_spec() == old(self).clips_spec(),
            final(self).width_spec() == old(self).width_spec(),
            final(self).height_spec() == old(self).height_spec(),
    {
        if h.index >= self.image_meta.len() {
            return Err(RenderError::InvalidHandle);
        }
        let m = self.image_meta[h.index];
        if !m.live || m.refs == 0 {
            return Err(RenderError::InvalidHandle);
        }
        self.image_meta.set(h.index, ImageMeta { refs: m.refs + 1, ..m });
        Ok(())
    }

    /// Gives up one application reference to the image. When none is left the
    /// image is released at once, unless a draw command of the open frame reads
    /// it: then it is released when that frame ends. Fails with `InvalidHandle`
    /// when the handle names no image still referred to.
    pub fn release_image(&mut self, h: ImageHandle) -> (r: Result<(), RenderError>)
        requires
            old(self).wf(),
        ensures
            final(self).wf(),
            !old(self).handle_valid(h) ==> r == Err::<(), RenderError>(RenderError::InvalidHandle)
                && *final(self) == *old(self),
            old(self).handle_valid(h) ==> r is Ok && final(self).images_spec() == old(
                self,
            ).images_spec().update(
                h.index_spec(),
                ({
                    let m = old(self).images_spec()[h.index_spec()];
                    ImageMeta { refs: (m.refs - 1) as u64, live: m.refs > 1 || m.in_use, ..m }
                }),
            ),
            forall|i: int|
                0 <= i < old(self).images_spec().len() && final(self).images_spec()[i].live
                    ==> #[trigger] final(self).image_pixels_spec(i) == old(self).image_pixels_spec(i),
            final(self).pixels_spec() == old(self).pixels_spec(),
            final(self).frame_open_spec() == old(self).frame_open_spec(),
            final(self).clips_spec() == old(self).clips_spec(),
            final(self).width_spec() == old(self).width_spec(),
            final(self).height_spec() == old(self).height_spec(),
    {
        if h.index >= self.image_meta.len() {
            return Err(RenderError::InvalidHandle);
        }
        let m = self.image_meta[h.index];
        if !m.live || m.refs == 0 {
            return Err(RenderError::InvalidHandle);
        }
        let live = m.refs > 1 || m.in_use;
        if !live {
            self.image_pixels.set(h.index, Vec::new());
        }
        self.image_meta.set(h.index, ImageMeta { refs: m.refs - 1, live, ..m });
        Ok(())
    }

    /// The number of images whose pixels are still held.
    pub fn live_image_count(&self) -> (c: usize)
        ensures
            c == live_count(self.images_spec()),
    {
        let n = self.image_meta.len();
        let mut c: usize = 0;
        let mut i: usize = 0;
        while i < n
            invariant
                n == self.image_meta@.len(),
                i <= n,
                c == live_count(self.image_meta@.take(i as int)),
            decreases n - i,
        {
            proof {
                assert(self.image_meta@.take(i + 1) =~= self.image_meta@.take(i as int).push(
                    self.image_meta@[i as int],
                ));
                lemma_live_count_push(self.image_meta@.take(i as int), self.image_meta@[i as int]);
                lemma_live_count_bound(self.image_meta@.take(i as int));
            }
            if self.image_meta[i].live {
                c = c + 1;
            }
            i = i + 1;
        }
        assert(self.image_meta@.take(n as int) =~= self.image_meta@);
        c
    }

    /// Composites the image with its top left corner at `top_left` over the
    /// clipped surface, and marks it as read by the open frame. Fails with
    /// `InvalidState` outside a frame and with `InvalidHandle` when the handle
    /// names no image still referred to.
    pub fn draw_image(&mut self, top_left: (i32, i32), h: ImageHandle) -> (r: Result<
        (),
        RenderError,
    >)
        requires
            old(self).wf(),
        ensures
            final(self).wf(),
            !old(self).frame_open_spec() ==> r == Err::<(), RenderError>(RenderError::InvalidState)
                && *final(self) == *old(self),
            old(self).frame_open_spec() && !old(self).handle_valid(h) ==> r == Err::<
                (),
                RenderError,
            >(RenderError::InvalidHandle) && *final(self) == *old(self),
            old(self).frame_open_spec() && old(self).handle_valid(h) ==> r is Ok && ({
                let m = old(self).images_spec()[h.index_spec()];
                &&& final(self).pixels_spec() == blit_spec(
                    old(self).pixels_spec(),
                    old(self).width_spec(),
                    old(self).clips_spec(),
                    old(self).image_pixels_spec(h.index_spec()),
                    m.width as nat,
                    m.height as nat,
                    top_left.0 as int,
                    top_left.1 as int,
                )
                &&& final(self).images_spec() == old(self).images_spec().update(
                    h.index_spec(),
                    ImageMeta { in_use: true, ..m },
                )
            }),
            forall|i: int|
                0 <= i < old(self).images_spec().len() ==> #[trigger] final(self).image_pixels_spec(
                    i,
                ) == old(self).image_pixels_spec(i),
            final(self).frame_open_spec() == old(self).frame_open_spec(),
            final(self).clips_spec() == old(self).clips_spec(),
            final(self).width_spec() == old(self).width_spec(),
            final(self).height_spec() == old(self).height_spec(),
    {
        if !self.frame_open {
            return Err(RenderError::InvalidState);
        }
        if h.index >= self.image_meta.len() {
            return Err(RenderError::InvalidHandle);
        }
        let m = self.image_meta[h.index];
        if !m.live || m.refs == 0 {
            return Err(RenderError::InvalidHandle);
        }
        let idx = h.index;
        let clip = self.clips.effective();
        let ghost clips = self.clips@;
        let ghost before = self.pixels@;
        let ghost image = self.image_pixels@[idx as int]@;
        let ghost target = blit_spec(
            before,
            self.width as nat,
            clips,
            image,
            m.width as nat,
            m.height as nat,
            top_left.0 as int,
            top_left.1 as int,
        );
        let ox = top_left.0 as i64;
        let oy = top_left.1 as i64;
        let iw = m.width as i64;
        let ih = m.height as i64;
        let ilen = self.image_pixels[idx].len();
        let n = self.pixels.len();
        let w = self.width as usize;
        let mut i: usize = 0;
        while i < n
            invariant
                self.wf(),
                ilen == image.len(),
                n == self.pixels@.len(),
                n == before.len(),
                w == self.width,
                self.width == old(self).width,
                self.height == old(self).height,
                self.frame_open == old(self).frame_open,
                self.clips@ == clips,
                clips == old(self).clips@,
                before == old(self).pixels@,
                self.image_meta@ == old(self).image_meta@,
                self.image_pixels@ == old(self).image_pixels@,
                idx < self.image_meta@.len(),
                m == self.image_meta@[idx as int],
                m.live,
                image == self.image_pixels@[idx as int]@,
                image.len() == m.width as int * m.height as int,
                ox == top_left.0,
                oy == top_left.1,
                iw == m.width,
                ih == m.height,
                target == blit_spec(
                    before,
                    self.width as nat,
                    clips,
                    image,
                    m.width as nat,
                    m.height as nat,
                    top_left.0 as int,
                    top_left.1 as int,
                ),
                clips.len() == 0 <==> clip is None,
                clip matches Some(c) ==> forall|x: int, y: int|
                    c.covers(x, y) <==> clips_admit(clips, x, y),
                i <= n,
                forall|j: int| 0 <= j < i ==> self.pixels@[j] == target[j],
                forall|j: int| i <= j < n ==> self.pixels@[j] == before[j],
            decreases n - i,
        {
            proof {
                lemma_pixel_coords(i as int, w as int, self.height as int);
            }
            let x = (i % w) as i64;
            let y = (i / w) as i64;
            let admitted = match clip {
                None => true,
                Some(c) => c.x0 as i64 <= x && x < c.x1 as i64 && c.y0 as i64 <= y && y
                    < c.y1 as i64,
            };
            proof {
                if clips.len() == 0 {
                    assert(clips_admit(clips, x as int, y as int));
                }
            }
            let u = x - ox;
            let v = y - oy;
            if admitted && 0 <= u && u < iw && 0 <= v && v < ih {
                assert(v * iw + u < iw * ih) by (nonlinear_arith)
                    requires 0 <= u < iw, 0 <= v < ih;
                assert(0 <= v * iw) by (nonlinear_arith)
                    requires 0 <= v, 0 <= iw;
                let k = (v as usize) * (iw as usize) + (u as usize);
                let src = self.image_pixels[idx][k];
                let under = self.pixels[i];
                self.pixels.set(i, src.blend_over(under));
            }
            i = i + 1;
        }
        assert(self.pixels@ =~= target);
        self.image_meta.set(idx, ImageMeta { in_use: true, ..m });
        Ok(())
    }

    /// Composites `color` through a coverage mask of `mw` by `mh` values with
    /// its top left corner at `(ox, oy)`, within the clip. Fails with
    /// `InvalidState` outside a frame, and with `InvalidImageData` when the
    /// mask does not hold `mw * mh` values.
    pub fn draw_glyph_mask(
        &mut self,
        ox: i128,
        oy: i128,
        mw: u32,
        mh: u32,
        coverage: &Vec<u8>,
        color: Color,
    ) -> (r: Result<(), RenderError>)
        requires
            old(self).wf(),
            -0x100_0000_0000_0000_0000_0000_0000 <= ox <= 0x100_0000_0000_0000_0000_0000_0000,
            -0x100_0000_0000_0000_0000_0000_0000 <= oy <= 0x100_0000_0000_0000_0000_0000_0000,
        ensures
            final(self).wf(),
            !old(self).frame_open_spec() ==> r == Err::<(), RenderError>(RenderError::InvalidState)
                && *final(self) == *old(self),
            old(self).frame_open_spec() && coverage@.len() != mw as int * mh as int ==> r == Err::<
                (),
                RenderError,
            >(RenderError::InvalidImageData) && *final(self) == *old(self),
            old(self).frame_open_spec() && coverage@.len() == mw as int * mh as int ==> r is Ok
                && final(self).pixels_spec() == mask_spec(
                old(self).pixels_spec(),
                old(self).width_spec(),
                old(self).clips_spec(),
                coverage@,
                mw as nat,
                mh as nat,
                ox as int,
                oy as int,
                color,
            ),
            final(self).frame_open_spec() == old(self).frame_open_spec(),
            final(self).clips_spec() == old(self).clips_spec(),
            final(self).width_spec() == old(self).width_spec(),
            final(self).height_spec() == old(self).height_spec(),
            final(self).same_images(&*old(self)),
    {
        if !self.frame_open {
            return Err(RenderError::InvalidState);
        }
        let w128 = mw as u128;
        let h128 = mh as u128;
        assert(w128 * h128 <= 0xffff_ffff_ffff_ffff) by (nonlinear_arith)
            requires w128 <= 0xffff_ffff, h128 <= 0xffff_ffff;
        if coverage.len() as u128 != w128 * h128 {
            return Err(RenderError::InvalidImageData);
        }
        let clip = self.clips.effective();
        let ghost clips = self.clips@;
        let ghost before = self.pixels@;
        let ghost target = mask_spec(
            before,
            self.width as nat,
            clips,
            coverage@,
            mw as nat,
            mh as nat,
            ox as int,
            oy as int,
            color,
        );
        let clen = coverage.len();
        let iw = mw as i128;
        let ih = mh as i128;
        let n = self.pixels.len();
        let w = self.width as usize;
        let mut i: usize = 0;
        while i < n
            invariant
                self.wf(),
                clen == coverage@.len(),
                clen == mw as int * mh as int,
                -0x100_0000_0000_0000_0000_0000_0000 <= ox <= 0x100_0000_0000_0000_0000_0000_0000,
                -0x100_0000_0000_0000_0000_0000_0000 <= oy <= 0x100_0000_0000_0000_0000_0000_0000,
                n == self.pixels@.len(),
                n == before.len(),
                w == self.width,
                self.width == old(self).width,
                self.height == old(self).height,
                self.frame_open == old(self).frame_open,
                self.clips@ == clips,
                clips == old(self).clips@,
                before == old(self).pixels@,
                self.image_meta@ == old(self).image_meta@,
                self.image_pixels@ == old(self).image_pixels@,
                iw == mw,
                ih == mh,
                target == mask_spec(
                    before,
                    self.width as nat,
                    clips,
                    coverage@,
                    mw as nat,
                    mh as nat,
                    ox as int,
                    oy as int,
                    color,
                ),
                clips.len() == 0 <==> clip is None,
                clip matches Some(c) ==> forall|x: int, y: int|
                    c.covers(x, y) <==> clips_admit(clips, x, y),
                i <= n,
                forall|j: int| 0 <= j < i ==> self.pixels@[j] == target[j],
                forall|j: int| i <= j < n ==> self.pixels@[j] == before[j],
            decreases n - i,
        {
            proof {
                lemma_pixel_coords(i as int, w as int, self.height as int);
            }
            let x = (i % w) as i64;
            let y = (i / w) as i64;
            let admitted = match clip {
                None => true,
                Some(c) => c.x0 as i64 <= x && x < c.x1 as i64 && c.y0 as i64 <= y && y
                    < c.y1 as i64,
            };
            proof {
                if clips.len() == 0 {
                    assert(clips_admit(clips, x as int, y as int));
                }
            }
            let u = x as i128 - ox;
            let v = y as i128 - oy;
            if admitted && 0 <= u && u < iw && 0 <= v && v < ih {
                assert(v * iw + u < iw * ih) by (nonlinear_arith)
                    requires 0 <= u < iw, 0 <= v < ih;
                assert(0 <= v * iw) by (nonlinear_arith)
                    requires 0 <= v, 0 <= iw;
                let k = (v as usize) * (iw as usize) + (u as usize);
                let cv = coverage[k];
                assert(color.a as u32 * cv as u32 <= 255 * 255) by (nonlinear_arith);
                let a = ((color.a as u32 * cv as u32 + 127) / 255) as u8;
                let src = Color { a, ..color };
                let under = self.pixels[i];
                self.pixels.set(i, src.blend_over(under));
            }
            i = i + 1;
        }
        assert(self.pixels@ =~= target);
        Ok(())
    }

    /// Draws laid-out text with its origin at `origin` in `color`, glyph by
    /// glyph in line order, each through the first bitmap in `bitmaps` for its
    /// glyph id, at its pen position plus the bitmap's offset; a glyph without
    /// a bitmap draws nothing. Fails with `InvalidState` outside a frame.
    pub fn draw_text(
        &mut self,
        origin: (i32, i32),
        color: Color,
        text: &LaidOutText,
        bitmaps: &Vec<GlyphBitmap>,
    ) -> (r: Result<(), RenderError>)
        requires
            old(self).wf(),
            bitmaps_ok(bitmaps@),
            text_in_range(*text),
        ensures
            final(self).wf(),
            !old(self).frame_open_spec() ==> r == Err::<(), RenderError>(RenderError::InvalidState)
                && *final(self) == *old(self),
            old(self).frame_open_spec() ==> r is Ok && final(self).pixels_spec() == stamps_spec(
                old(self).pixels_spec(),
                old(self).width_spec(),
                old(self).clips_spec(),
                bitmaps@,
                color,
                text_stamps(text.lines@, origin),
            ),
            final(self).frame_open_spec() == old(self).frame_open_spec(),
            final(self).clips_spec() == old(self).clips_spec(),
            final(self).width_spec() == old(self).width_spec(),
            final(self).height_spec() == old(self).height_spec(),
            final(self).same_images(&*old(self)),
    {
        if !self.frame_open {
            return Err(RenderError::InvalidState);
        }
        let ghost before = self.pixels@;
        let ghost clips = self.clips@;
        let ghost width = self.width as nat;
        let nl = text.lines.len();
        let mut i: usize = 0;
        while i < nl
            invariant
                self.wf(),
                bitmaps_ok(bitmaps@),
                text_in_range(*text),
                nl == text.lines@.len(),
                i <= nl,
                self.frame_open,
                self.clips@ == clips,
                clips == old(self).clips@,
                width == self.width,
                self.width == old(self).width,
                self.height == old(self).height,
                before == old(self).pixels@,
                self.same_images(&*old(self)),
                self.pixels@ == stamps_spec(
                    before,
                    width,
                    clips,
                    bitmaps@,
                    color,
                    text_stamps(text.lines@.take(i as int), origin),
                ),
            decreases nl - i,
        {
            let line = &text.lines[i];
            let ghost done = text_stamps(text.lines@.take(i as int), origin);
            let ghost ls = line_stamps(*line, origin);
            assert(text.lines@.take(i + 1).drop_last() =~= text.lines@.take(i as int));
            assert(text_stamps(text.lines@.take(i + 1), origin) == done + ls);
            let ng = line.glyphs.len();
            let mut j: usize = 0;
            while j < ng
                invariant
                    self.wf(),
                    bitmaps_ok(bitmaps@),
                    text_in_range(*text),
                    i < nl,
                    nl == text.lines@.len(),
                    *line == text.lines@[i as int],
                    ng == line.glyphs@.len(),
                    ls == line_stamps(*line, origin),
                    j <= ng,
                    self.frame_open,
                    self.clips@ == clips,
                    width == self.width,
                    self.width == old(self).width,
                    self.height == old(self).height,
                    self.same_images(&*old(self)),
                    self.pixels@ == stamps_spec(
                        before,
                        width,
                        clips,
                        bitmaps@,
                        color,
                        done + ls.take(j as int),
                    ),
                decreases ng - j,
            {
                let g = line.glyphs[j];
                let ghost st = ls[j as int];
                let ghost prev = done + ls.take(j as int);
                assert((done + ls.take(j + 1)).drop_last() =~= prev);
                assert((done + ls.take(j + 1)).last() == st);
                let nb = bitmaps.len();
                let mut b: usize = 0;
                while b < nb && bitmaps[b].id != g.id
                    invariant
                        nb == bitmaps@.len(),
                        b <= nb,
                        bitmap_index(bitmaps@, g.id, 0) == bitmap_index(bitmaps@, g.id, b as int),
                    decreases nb - b,
                {
                    b = b + 1;
                }
                let found = b < nb;
                proof {
                    if !found {
                        assert(bitmap_index(bitmaps@, g.id, b as int) is None);
                    }
                    assert(text.lines@[i as int].glyphs@[j as int] == g);
                    assert(line.baseline_y <= 0x10_0000_0000_0000_0000_0000_0000);
                    assert(-0x10_0000_0000_0000_0000_0000_0000 <= g.x <= 0x10_0000_0000_0000_0000_0000_0000);
                }
                if found {
                    let bm = &bitmaps[b];
                    assert(bitmaps@[b as int].coverage@.len() == bitmaps@[b as int].width as int * bitmaps@[b as int].height as int);
                    let ox: i128 = origin.0 as i128 + g.x + bm.left as i128;
                    let oy: i128 = origin.1 as i128 + line.baseline_y as i128 + bm.top as i128;
                    let _ = self.draw_glyph_mask(ox, oy, bm.width, bm.height, &bm.coverage, color);
                }
                j = j + 1;
            }
            assert(ls.take(ng as int) =~= ls);
            i = i + 1;
        }
        assert(text.lines@.take(nl as int) =~= text.lines@);
        Ok(())
    }

    /// Draws laid-out text as `draw_text` does, with the clip narrowed by
    /// `crop` for this call only. Fails with `InvalidState` outside a frame.
    pub fn draw_text_cropped(
        &mut self,
        origin: (i32, i32),
        crop: Rect,
        color: Color,
        text: &LaidOutText,
        bitmaps: &Vec<GlyphBitmap>,
    ) -> (r: Result<(), RenderError>)
        requires
            old(self).wf(),
            bitmaps_ok(bitmaps@),
            text_in_range(*text),
        ensures
            final(self).wf(),
            !old(self).frame_open_spec() ==> r == Err::<(), RenderError>(RenderError::InvalidState)
                && *final(self) == *old(self),
            old(self).frame_open_spec() ==> r is Ok && final(self).pixels_spec() == stamps_spec(
                old(self).pixels_spec(),
                old(self).width_spec(),
                old(self).clips_spec().push(crop),
                bitmaps@,
                color,
                text_stamps(text.lines@, origin),
            ),
            final(self).frame_open_spec() == old(self).frame_open_spec(),
            final(self).clips_spec() == old(self).clips_spec(),
            final(self).width_spec() == old(self).width_spec(),
            final(self).height_spec() == old(self).height_spec(),
            final(self).same_images(&*old(self)),
    {
        if !self.frame_open {
            return Err(RenderError::InvalidState);
        }
        let _ = self.push_clip(crop);
        let _ = self.draw_text(origin, color, text, bitmaps);
        let _ = self.pop_clip();
        assert(self.clips@ =~= old(self).clips@);
        Ok(())
    }

    /// Composites a sector: each pixel whose centre is in the triangle and
    /// whose interpolated `(u, v)` lies within `unit` of the origin takes the
    /// colour interpolated from the corners, within the clip. Fails with
    /// `InvalidState` outside a frame.
    pub fn draw_circle_section_triangular_three_color(&mut self, sector: Sector) -> (r: Result<
        (),
        RenderError,
    >)
        requires
            old(self).wf(),
        ensures
            final(self).wf(),
            !old(self).frame_open_spec() ==> r == Err::<(), RenderError>(RenderError::InvalidState)
                && *final(self) == *old(self),
            old(self).frame_open_spec() ==> r is Ok && final(self).pixels_spec() == sector_spec(
                old(self).pixels_spec(),
                old(self).width_spec(),
                old(self).clips_spec(),
                sector,
            ),
            final(self).frame_open_spec() == old(self).frame_open_spec(),
            final(self).clips_spec() == old(self).clips_spec(),
            final(self).width_spec() == old(self).width_spec(),
            final(self).height_spec() == old(self).height_spec(),
            final(self).same_images(&*old(self)),
    {
        if !self.frame_open {
            return Err(RenderError::InvalidState);
        }
        let clip = self.clips.effective();
        let ghost clips = self.clips@;
        let ghost before = self.pixels@;
        let ghost target = sector_spec(before, self.width as nat, clips, sector);
        let ax: i128 = 2 * sector.points[0].0 as i128;
        let ay: i128 = 2 * sector.points[0].1 as i128;
        let bx: i128 = 2 * sector.points[1].0 as i128;
        let by: i128 = 2 * sector.points[1].1 as i128;
        let cx: i128 = 2 * sector.points[2].0 as i128;
        let cy: i128 = 2 * sector.points[2].1 as i128;
        let n = self.pixels.len();
        let w = self.width as usize;
        let mut i: usize = 0;
        while i < n
            invariant
                self.wf(),
                n == self.pixels@.len(),
                n == before.len(),
                w == self.width,
                self.width == old(self).width,
                self.height == old(self).height,
                self.frame_open == old(self).frame_open,
                self.clips@ == clips,
                clips == old(self).clips@,
                before == old(self).pixels@,
                self.image_meta@ == old(self).image_meta@,
                self.image_pixels@ == old(self).image_pixels@,
                ax == 2 * sector.points[0].0,
                ay == 2 * sector.points[0].1,
                bx == 2 * sector.points[1].0,
                by == 2 * sector.points[1].1,
                cx == 2 * sector.points[2].0,
                cy == 2 * sector.points[2].1,
                target == sector_spec(before, self.width as nat, clips, sector),
                clips.len() == 0 <==> clip is None,
                clip matches Some(c) ==> forall|x: int, y: int|
                    c.covers(x, y) <==> clips_admit(clips, x, y),
                i <= n,
                forall|j: int| 0 <= j < i ==> self.pixels@[j] == target[j],
                forall|j: int| i <= j < n ==> self.pixels@[j] == before[j],
            decreases n - i,
        {
            proof {
                lemma_pixel_coords(i as int, w as int, self.height as int);
            }
            let x = (i % w) as i64;
            let y = (i / w) as i64;
            let admitted = match clip {
                None => true,
                Some(c) => c.x0 as i64 <= x && x < c.x1 as i64 && c.y0 as i64 <= y && y
                    < c.y1 as i64,
            };
            proof {
                if clips.len() == 0 {
                    assert(clips_admit(clips, x as int, y as int));
                }
            }
            let px: i128 = 2 * (x as i128) + 1;
            let py: i128 = 2 * (y as i128) + 1;
            let in_box = (px >= ax || px >= bx || px >= cx) && (px <= ax || px <= bx || px <= cx)
                && (py >= ay || py >= by || py >= cy) && (py <= ay || py <= by || py <= cy);
            if admitted && in_box {
                let d1 = cx - bx;
                let d2 = py - by;
                let d3 = cy - by;
                let d4 = px - bx;
                let e1 = ax - cx;
                let e2 = py - cy;
                let e3 = ay - cy;
                let e4 = px - cx;
                let f1 = bx - ax;
                let f2 = py - ay;
                let f3 = by - ay;
                let f4 = px - ax;
                let g2 = cy - ay;
                let g4 = cx - ax;
                assert(-0x10_0000_0000 <= d1 * d2 <= 0x10_0000_0000) by (nonlinear_arith)
                    requires -0x4_0000 <= d1 <= 0x4_0000, -0x4_0000 <= d2 <= 0x4_0000;
                assert(-0x10_0000_0000 <= d3 * d4 <= 0x10_0000_0000) by (nonlinear_arith)
                    requires -0x4_0000 <= d3 <= 0x4_0000, -0x4_0000 <= d4 <= 0x4_0000;
                assert(-0x10_0000_0000 <= e1 * e2 <= 0x10_0000_0000) by (nonlinear_arith)
                    requires -0x4_0000 <= e1 <= 0x4_0000, -0x4_0000 <= e2 <= 0x4_0000;
                assert(-0x10_0000_0000 <= e3 * e4 <= 0x10_0000_0000) by (nonlinear_arith)
                    requires -0x4_0000 <= e3 <= 0x4_0000, -0x4_0000 <= e4 <= 0x4_0000;
                assert(-0x10_0000_0000 <= f1 * f2 <= 0x10_0000_0000) by (nonlinear_arith)
                    requires -0x4_0000 <= f1 <= 0x4_0000, -0x4_0000 <= f2 <= 0x4_0000;
                assert(-0x10_0000_0000 <= f3 * f4 <= 0x10_0000_0000) by (nonlinear_arith)
                    requires -0x4_0000 <= f3 <= 0x4_0000, -0x4_0000 <= f4 <= 0x4_0000;
                assert(-0x10_0000_0000 <= f1 * g2 <= 0x10_0000_0000) by (nonlinear_arith)
                    requires -0x4_0000 <= f1 <= 0x4_0000, -0x4_0000 <= g2 <= 0x4_0000;
                assert(-0x10_0000_0000 <= f3 * g4 <= 0x10_0000_0000) by (nonlinear_arith)
                    requires -0x4_0000 <= f3 <= 0x4_0000, -0x4_0000 <= g4 <= 0x4_0000;
                let w0 = d1 * d2 - d3 * d4;
                let w1 = e1 * e2 - e3 * e4;
                let w2 = f1 * f2 - f3 * f4;
                let area = f1 * g2 - f3 * g4;
                proof {
                    lemma_barycentric_sum(ax as int, ay as int, bx as int, by as int, cx as int, cy as int, px as int, py as int);
                }
                let same_side = area != 0 && (area <= 0 || (w0 >= 0 && w1 >= 0 && w2 >= 0)) && (
                area >= 0 || (w0 <= 0 && w1 <= 0 && w2 <= 0));
                if same_side {
                    let u0 = sector.uvs[0].0 as i128;
                    let u1 = sector.uvs[1].0 as i128;
                    let u2 = sector.uvs[2].0 as i128;
                    let v0 = sector.uvs[0].1 as i128;
                    let v1 = sector.uvs[1].1 as i128;
                    let v2 = sector.uvs[2].1 as i128;
                    assert(-0x10_0000_0000_0000 <= w0 * u0 <= 0x10_0000_0000_0000) by (nonlinear_arith)
                        requires -0x20_0000_0000 <= w0 <= 0x20_0000_0000, -0x8000 <= u0 <= 0x8000;
                    assert(-0x10_0000_0000_0000 <= w1 * u1 <= 0x10_0000_0000_0000) by (nonlinear_arith)
                        requires -0x20_0000_0000 <= w1 <= 0x20_0000_0000, -0x8000 <= u1 <= 0x8000;
                    assert(-0x10_0000_0000_0000 <= w2 * u2 <= 0x10_0000_0000_0000) by (nonlinear_arith)
                        requires -0x20_0000_0000 <= w2 <= 0x20_0000_0000, -0x8000 <= u2 <= 0x8000;
                    assert(-0x10_0000_0000_0000 <= w0 * v0 <= 0x10_0000_0000_0000) by (nonlinear_arith)
                        requires -0x20_0000_0000 <= w0 <= 0x20_0000_0000, -0x8000 <= v0 <= 0x8000;
                    assert(-0x10_0000_0000_0000 <= w1 * v1 <= 0x10_0000_0000_0000) by (nonlinear_arith)
                        requires -0x20_0000_0000 <= w1 <= 0x20_0000_0000, -0x8000 <= v1 <= 0x8000;
                    assert(-0x10_0000_0000_0000 <= w2 * v2 <= 0x10_0000_0000_0000) by (nonlinear_arith)
                        requires -0x20_0000_0000 <= w2 <= 0x20_0000_0000, -0x8000 <= v2 <= 0x8000;
                    let uu = w0 * u0 + w1 * u1 + w2 * u2;
                    let vv = w0 * v0 + w1 * v1 + w2 * v2;
                    let unit = sector.unit as i128;
                    assert(0 <= uu * uu <= 0x1000_0000_0000_0000_0000_0000_0000) by (nonlinear_arith)
                        requires -0x40_0000_0000_0000 <= uu <= 0x40_0000_0000_0000;
                    assert(0 <= vv * vv <= 0x1000_0000_0000_0000_0000_0000_0000) by (nonlinear_arith)
                        requires -0x40_0000_0000_0000 <= vv <= 0x40_0000_0000_0000;
                    assert(0 <= unit * unit <= 0x1_0000_0000) by (nonlinear_arith)
                        requires 0 <= unit <= 0xffff;
                    assert(0 <= area * area <= 0x400_0000_0000_0000_0000) by (nonlinear_arith)
                        requires -0x20_0000_0000 <= area <= 0x20_0000_0000;
                    assert(0 <= (unit * unit) * (area * area) <= 0x1_0000_0000 * 0x400_0000_0000_0000_0000)
                        by (nonlinear_arith)
                        requires 0 <= unit * unit <= 0x1_0000_0000, 0 <= area * area <= 0x400_0000_0000_0000_0000;
                    if uu * uu + vv * vv <= (unit * unit) * (area * area) {
                        let (a0, a1, a2, t) = if area > 0 {
                            (w0, w1, w2, area)
                        } else {
                            (-w0, -w1, -w2, -area)
                        };
                        let c0 = sector.colors[0];
                        let c1 = sector.colors[1];
                        let c2 = sector.colors[2];
                        let col = Color {
                            r: interpolate_exec(c0.r, c1.r, c2.r, a0, a1, a2, t),
                            g: interpolate_exec(c0.g, c1.g, c2.g, a0, a1, a2, t),
                            b: interpolate_exec(c0.b, c1.b, c2.b, a0, a1, a2, t),
                            a: interpolate_exec(c0.a, c1.a, c2.a, a0, a1, a2, t),
                        };
                        let under = self.pixels[i];
                        self.pixels.set(i, col.blend_over(under));
                    }
                }
            }
            i = i + 1;
        }
        assert(self.pixels@ =~= target);
        Ok(())
    }

    /// Reads the surface back as bytes in `format`, row by row from the top.
    /// Fails with `InvalidState` outside a frame.
    pub fn capture(&self, format: PixelFormat) -> (r: Result<Vec<u8>, RenderError>)
        requires
            self.wf(),
        ensures
            !self.frame_open_spec() ==> r == Err::<Vec<u8>, RenderError>(RenderError::InvalidState),
            self.frame_open_spec() ==> (r matches Ok(bytes) && bytes@ == encode_pixels(
                self.pixels_spec(),
                format,
            ) && bytes@.len() == self.width_spec() * self.height_spec() * bytes_per_pixel(format)),
    {
        if !self.frame_open {
            return Err(RenderError::InvalidState);
        }
        let ghost bpp = bytes_per_pixel(format) as int;
        let ghost target = encode_pixels(self.pixels@, format);
        let rgba = match format {
            PixelFormat::RGBA => true,
            PixelFormat::RGB => false,
        };
        let n = self.pixels.len();
        let mut out: Vec<u8> = Vec::new();
        let mut i: usize = 0;
        while i < n
            invariant
                self.wf(),
                n == self.pixels@.len(),
                i <= n,
                rgba <==> format == PixelFormat::RGBA,
                bpp == bytes_per_pixel(format),
                target == encode_pixels(self.pixels@, format),
                out@.len() == i * bpp,
                forall|j: int| 0 <= j < i * bpp ==> out@[j] == target[j],
            decreases n - i,
        {
            let c = self.pixels[i];
            out.push(c.r);
            out.push(c.g);
            out.push(c.b);
            if rgba {
                out.push(c.a);
            }
            proof {
                assert((i + 1) * bpp == i * bpp + bpp) by (nonlinear_arith);
                assert(i * bpp + bpp <= n * bpp) by (nonlinear_arith)
                    requires i < n, bpp > 0;
                assert forall|j: int| i * bpp <= j < (i + 1) * bpp implies out@[j] == target[j] by {
                    lemma_fundamental_div_mod_converse(j, bpp, i as int, j - i * bpp);
                }
            }
            i = i + 1;
        }
        assert(out@ =~= target);
        assert(n * bpp == self.width * self.height * bpp);
        Ok(out)
    }
}

} // verus!
