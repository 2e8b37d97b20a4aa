use speedy2d::color::Color;
use speedy2d::geom::Rect;
use speedy2d::renderer::{GlyphBitmap, PixelFormat, RenderError, Renderer, Sector};
use speedy2d::text::{layout, FontMetrics, Glyph, LaidOutText, TextOptions};

fn pixel(bytes: &[u8], width: u32, x: u32, y: u32) -> (u8, u8, u8, u8) {
    let i = ((y * width + x) * 4) as usize;
    (bytes[i], bytes[i + 1], bytes[i + 2], bytes[i + 3])
}

fn white() -> Color {
    Color::from_hex_argb(0xFFFFFFFF)
}

#[test]
fn later_rectangle_wins_over_earlier() {
    let mut r = Renderer::new(50, 50);
    r.begin_frame().unwrap();
    r.clear_screen(white()).unwrap();
    r.draw_rectangle(Rect::from_tuples((10, 20), (30, 40)), Color::from_rgb(255, 0, 255)).unwrap();
    r.draw_rectangle(Rect::from_tuples((15, 30), (49, 48)), Color::from_rgb(0, 255, 0)).unwrap();
    let bytes = r.capture(PixelFormat::RGBA).unwrap();
    assert_eq!(pixel(&bytes, 50, 20, 35), (0, 255, 0, 255));
    assert_eq!(pixel(&bytes, 50, 5, 5), (255, 255, 255, 255));
    assert_eq!(pixel(&bytes, 50, 12, 25), (255, 0, 255, 255));
    assert_eq!(pixel(&bytes, 50, 48, 47), (0, 255, 0, 255));
    assert_eq!(pixel(&bytes, 50, 49, 47), (255, 255, 255, 255));
    r.end_frame().unwrap();
}

#[test]
fn clip_limits_rectangles() {
    let mut r = Renderer::new(50, 50);
    r.begin_frame().unwrap();
    r.clear_screen(white()).unwrap();
    r.set_clip(Some(Rect::from_tuples((10, 10), (30, 20)))).unwrap();
    r.draw_rectangle(Rect::from_tuples((0, 0), (20, 40)), Color::from_rgb(255, 0, 0)).unwrap();
    r.draw_rectangle(Rect::from_tuples((20, 0), (40, 40)), Color::from_rgb(0, 0, 255)).unwrap();
    let bytes = r.capture(PixelFormat::RGBA).unwrap();
    for y in 0..50u32 {
        for x in 0..50u32 {
            let inside_clip = (10..30).contains(&x) && (10..20).contains(&y);
            let expected = if inside_clip && x < 20 {
                (255, 0, 0, 255)
            } else if inside_clip {
                (0, 0, 255, 255)
            } else {
                (255, 255, 255, 255)
            };
            assert_eq!(pixel(&bytes, 50, x, y), expected, "pixel ({}, {})", x, y);
        }
    }
}

#[test]
fn nested_clips_intersect() {
    let mut r = Renderer::new(20, 20);
    r.begin_frame().unwrap();
    r.clear_screen(white()).unwrap();
    r.push_clip(Rect::from_tuples((0, 0), (10, 10))).unwrap();
    r.push_clip(Rect::from_tuples((5, 5), (15, 15))).unwrap();
    r.draw_rectangle(Rect::from_tuples((0, 0), (20, 20)), Color::from_rgb(0, 0, 0)).unwrap();
    assert_eq!(r.pop_clip().unwrap(), Some(Rect::from_tuples((5, 5), (15, 15))));
    let bytes = r.capture(PixelFormat::RGBA).unwrap();
    assert_eq!(pixel(&bytes, 20, 7, 7), (0, 0, 0, 255));
    assert_eq!(pixel(&bytes, 20, 3, 3), (255, 255, 255, 255));
    assert_eq!(pixel(&bytes, 20, 12, 12), (255, 255, 255, 255));
}

#[test]
fn empty_clip_draws_nothing() {
    let mut r = Renderer::new(10, 10);
    r.begin_frame().unwrap();
    r.clear_screen(white()).unwrap();
    r.set_clip(Some(Rect::from_tuples((5, 5), (5, 9)))).unwrap();
    r.draw_rectangle(Rect::from_tuples((0, 0), (10, 10)), Color::from_rgb(0, 0, 0)).unwrap();
    let bytes = r.capture(PixelFormat::RGBA).unwrap();
    assert!(bytes.iter().all(|b| *b == 255));
}

#[test]
fn transparent_rectangle_leaves_background() {
    let mut r = Renderer::new(40, 40);
    r.begin_frame().unwrap();
    r.clear_screen(Color::from_hex_argb(0x55888888)).unwrap();
    let before = r.capture(PixelFormat::RGBA).unwrap();
    r.draw_rectangle(Rect::from_tuples((5, 5), (30, 30)), Color::from_hex_argb(0x00FFFFFF)).unwrap();
    r.draw_rectangle(Rect::from_tuples((10, 10), (35, 35)), Color::from_hex_argb(0x00000000)).unwrap();
    let after = r.capture(PixelFormat::RGBA).unwrap();
    assert_eq!(before, after);
}

#[test]
fn opaque_rectangle_replaces_background() {
    let mut r = Renderer::new(40, 40);
    r.begin_frame().unwrap();
    r.clear_screen(Color::from_hex_argb(0x55888888)).unwrap();
    r.draw_rectangle(Rect::from_tuples((5, 5), (30, 30)), Color::from_rgb(0, 0, 255)).unwrap();
    let bytes = r.capture(PixelFormat::RGBA).unwrap();
    assert_eq!(pixel(&bytes, 40, 10, 10), (0, 0, 255, 255));
    assert_eq!(pixel(&bytes, 40, 35, 35), (0x88, 0x88, 0x88, 0x55));
}

#[test]
fn semitransparent_blend_values() {
    let white_77 = Color::from_hex_argb(0x77FFFFFF);
    let out = white_77.blend_over(Color::from_rgb(0, 0, 0));
    assert_eq!(out, Color::from_rgba(0x77, 0x77, 0x77, 255));
    let black_77 = Color::from_hex_argb(0x77000000);
    let out = black_77.blend_over(Color::from_rgb(255, 255, 255));
    assert_eq!(out, Color::from_rgba(136, 136, 136, 255));
    let out = white_77.blend_over(Color::from_hex_argb(0x55888888));
    // (255*119 + 136*136 + 127) / 255 = 192; 119 + (85*136 + 127) / 255 = 164
    assert_eq!(out, Color::from_rgba(192, 192, 192, 164));
}

#[test]
fn hex_argb_channels() {
    let c = Color::from_hex_argb(0x11223344);
    assert_eq!(c, Color::from_rgba(0x22, 0x33, 0x44, 0x11));
    assert_eq!(c.to_hex_argb(), 0x11223344);
}

#[test]
fn capture_size_and_repeat() {
    let mut r = Renderer::new(7, 5);
    r.begin_frame().unwrap();
    r.clear_screen(Color::from_rgba(1, 2, 3, 4)).unwrap();
    let a = r.capture(PixelFormat::RGBA).unwrap();
    let b = r.capture(PixelFormat::RGBA).unwrap();
    assert_eq!(a.len(), 7 * 5 * 4);
    assert_eq!(a, b);
    let c = r.capture(PixelFormat::RGB).unwrap();
    assert_eq!(c.len(), 7 * 5 * 3);
    assert_eq!(&c[0..6], &[1, 2, 3, 1, 2, 3]);
    assert_eq!(&a[0..4], &[1, 2, 3, 4]);
}

#[test]
fn drawing_outside_a_frame_fails() {
    let mut r = Renderer::new(4, 4);
    assert_eq!(r.clear_screen(white()), Err(RenderError::InvalidState));
    assert_eq!(
        r.draw_rectangle(Rect::from_tuples((0, 0), (2, 2)), white()),
        Err(RenderError::InvalidState)
    );
    assert_eq!(r.set_clip(None), Err(RenderError::InvalidState));
    assert_eq!(r.capture(PixelFormat::RGBA), Err(RenderError::InvalidState));
    assert_eq!(r.end_frame(), Err(RenderError::InvalidState));
    r.begin_frame().unwrap();
    assert_eq!(r.begin_frame(), Err(RenderError::InvalidState));
    assert!(r.is_frame_open());
    r.end_frame().unwrap();
    assert!(!r.is_frame_open());
}

#[test]
fn circle_covers_pixel_centres() {
    let mut r = Renderer::new(50, 50);
    r.begin_frame().unwrap();
    r.clear_screen(white()).unwrap();
    r.draw_circle((20, 20), 10, Color::from_rgb(255, 0, 0)).unwrap();
    let bytes = r.capture(PixelFormat::RGBA).unwrap();
    assert_eq!(pixel(&bytes, 50, 20, 20), (255, 0, 0, 255));
    assert_eq!(pixel(&bytes, 50, 10, 19), (255, 0, 0, 255));
    assert_eq!(pixel(&bytes, 50, 9, 19), (255, 255, 255, 255));
    assert_eq!(pixel(&bytes, 50, 11, 11), (255, 255, 255, 255));
    assert_eq!(pixel(&bytes, 50, 29, 20), (255, 0, 0, 255));
    assert_eq!(pixel(&bytes, 50, 30, 20), (255, 255, 255, 255));
}

fn render_polygon(vertices: Vec<(i32, i32)>) -> Vec<u8> {
    let mut r = Renderer::new(40, 40);
    r.begin_frame().unwrap();
    r.clear_screen(white()).unwrap();
    r.draw_polygon(vertices, (0, 0), Color::from_rgb(0, 0, 255)).unwrap();
    r.capture(PixelFormat::RGBA).unwrap()
}

#[test]
fn polygon_direction_does_not_matter() {
    // A concave arrow-like shape.
    let forward = vec![(5, 5), (35, 5), (35, 35), (20, 15), (5, 35)];
    let mut backward = forward.clone();
    backward.reverse();
    let a = render_polygon(forward);
    let b = render_polygon(backward);
    assert_eq!(a, b);
    // Inside the top band, outside the notch, below the notch's tip.
    assert_eq!(pixel(&a, 40, 20, 8), (0, 0, 255, 255));
    assert_eq!(pixel(&a, 40, 20, 30), (255, 255, 255, 255));
    assert_eq!(pixel(&a, 40, 7, 30), (0, 0, 255, 255));
    assert_eq!(pixel(&a, 40, 2, 2), (255, 255, 255, 255));
}

#[test]
fn degenerate_polygon_draws_nothing() {
    let bytes = render_polygon(vec![(5, 5), (30, 30)]);
    assert!(bytes.iter().all(|b| *b == 255));
}

#[test]
fn image_per_frame_does_not_leak() {
    let mut r = Renderer::new(30, 30);
    let data: Vec<u8> = (0..10 * 10 * 4).map(|i| (i % 251) as u8).collect();
    let baseline = r.live_image_count();
    for _ in 0..10 {
        r.begin_frame().unwrap();
        let h = r.create_image(PixelFormat::RGBA, 10, 10, &data).unwrap();
        r.draw_image((5, 5), h).unwrap();
        r.release_image(h).unwrap();
        // Still read by this frame: released only when it ends.
        assert_eq!(r.live_image_count(), baseline + 1);
        r.end_frame().unwrap();
        assert_eq!(r.live_image_count(), baseline);
    }
}

#[test]
fn image_released_outside_frame_goes_at_once() {
    let mut r = Renderer::new(4, 4);
    let h = r.create_image(PixelFormat::RGB, 1, 1, &vec![1, 2, 3]).unwrap();
    r.retain_image(h).unwrap();
    r.release_image(h).unwrap();
    assert_eq!(r.live_image_count(), 1);
    r.release_image(h).unwrap();
    assert_eq!(r.live_image_count(), 0);
    assert_eq!(r.release_image(h), Err(RenderError::InvalidHandle));
    r.begin_frame().unwrap();
    assert_eq!(r.draw_image((0, 0), h), Err(RenderError::InvalidHandle));
}

#[test]
fn image_data_length_is_checked() {
    let mut r = Renderer::new(4, 4);
    assert_eq!(
        r.create_image(PixelFormat::RGBA, 2, 2, &vec![0; 15]),
        Err(RenderError::InvalidImageData)
    );
    assert_eq!(
        r.create_image(PixelFormat::RGB, 2, 2, &vec![0; 16]),
        Err(RenderError::InvalidImageData)
    );
    assert!(r.create_image(PixelFormat::RGB, 2, 2, &vec![0; 12]).is_ok());
    assert_eq!(r.live_image_count(), 1);
}

#[test]
fn image_is_blitted_at_its_corner() {
    let mut r = Renderer::new(6, 6);
    let data = vec![10, 20, 30, 40, 50, 60, 70, 80, 90, 100, 110, 120];
    let h = r.create_image(PixelFormat::RGB, 2, 2, &data).unwrap();
    r.begin_frame().unwrap();
    r.clear_screen(white()).unwrap();
    r.draw_image((3, 1), h).unwrap();
    let bytes = r.capture(PixelFormat::RGBA).unwrap();
    assert_eq!(pixel(&bytes, 6, 3, 1), (10, 20, 30, 255));
    assert_eq!(pixel(&bytes, 6, 4, 1), (40, 50, 60, 255));
    assert_eq!(pixel(&bytes, 6, 3, 2), (70, 80, 90, 255));
    assert_eq!(pixel(&bytes, 6, 4, 2), (100, 110, 120, 255));
    assert_eq!(pixel(&bytes, 6, 5, 1), (255, 255, 255, 255));
    assert_eq!(pixel(&bytes, 6, 2, 1), (255, 255, 255, 255));
}

#[test]
fn rounded_rectangle_corners() {
    let mut r = Renderer::new(20, 20);
    r.begin_frame().unwrap();
    r.clear_screen(white()).unwrap();
    r.draw_rounded_rectangle(Rect::from_tuples((0, 0), (20, 20)), 5, Color::from_rgb(0, 0, 0)).unwrap();
    let bytes = r.capture(PixelFormat::RGBA).unwrap();
    assert_eq!(pixel(&bytes, 20, 0, 0), (255, 255, 255, 255));
    assert_eq!(pixel(&bytes, 20, 19, 19), (255, 255, 255, 255));
    assert_eq!(pixel(&bytes, 20, 5, 0), (0, 0, 0, 255));
    assert_eq!(pixel(&bytes, 20, 0, 5), (0, 0, 0, 255));
    assert_eq!(pixel(&bytes, 20, 1, 1), (0, 0, 0, 255));
    assert_eq!(pixel(&bytes, 20, 15, 10), (0, 0, 0, 255));
}

#[test]
fn horizontal_line_covers_its_rows() {
    let mut r = Renderer::new(40, 20);
    r.begin_frame().unwrap();
    r.clear_screen(white()).unwrap();
    r.draw_line((10, 10), (30, 10), 2, Color::from_rgb(0, 0, 255)).unwrap();
    let bytes = r.capture(PixelFormat::RGBA).unwrap();
    assert_eq!(pixel(&bytes, 40, 10, 9), (0, 0, 255, 255));
    assert_eq!(pixel(&bytes, 40, 29, 10), (0, 0, 255, 255));
    assert_eq!(pixel(&bytes, 40, 30, 10), (255, 255, 255, 255));
    assert_eq!(pixel(&bytes, 40, 10, 11), (255, 255, 255, 255));
    assert_eq!(pixel(&bytes, 40, 9, 10), (255, 255, 255, 255));
    assert_eq!(pixel(&bytes, 40, 20, 8), (255, 255, 255, 255));
}

#[test]
fn vertical_line_covers_its_columns() {
    let mut r = Renderer::new(20, 40);
    r.begin_frame().unwrap();
    r.clear_screen(white()).unwrap();
    r.draw_line((10, 30), (10, 10), 2, Color::from_rgb(0, 0, 0)).unwrap();
    let bytes = r.capture(PixelFormat::RGBA).unwrap();
    assert_eq!(pixel(&bytes, 20, 9, 10), (0, 0, 0, 255));
    assert_eq!(pixel(&bytes, 20, 10, 29), (0, 0, 0, 255));
    assert_eq!(pixel(&bytes, 20, 11, 20), (255, 255, 255, 255));
    assert_eq!(pixel(&bytes, 20, 10, 30), (255, 255, 255, 255));
}

#[test]
fn sector_draws_a_disc_section() {
    let mut r = Renderer::new(30, 30);
    r.begin_frame().unwrap();
    r.clear_screen(white()).unwrap();
    let m = Color::from_rgb(255, 0, 255);
    r.draw_circle_section_triangular_three_color(Sector {
        points: [(10, 10), (20, 10), (20, 20)],
        colors: [m, m, m],
        uvs: [(-64, -64), (64, -64), (64, 64)],
        unit: 64,
    })
    .unwrap();
    let bytes = r.capture(PixelFormat::RGBA).unwrap();
    assert_eq!(pixel(&bytes, 30, 15, 11), (255, 0, 255, 255));
    assert_eq!(pixel(&bytes, 30, 19, 11), (255, 255, 255, 255));
    assert_eq!(pixel(&bytes, 30, 12, 15), (255, 255, 255, 255));
}

#[test]
fn sector_interpolates_colours() {
    let mut r = Renderer::new(30, 30);
    r.begin_frame().unwrap();
    r.clear_screen(white()).unwrap();
    r.draw_circle_section_triangular_three_color(Sector {
        points: [(10, 10), (20, 10), (20, 20)],
        colors: [Color::from_rgb(255, 0, 0), Color::from_rgb(0, 255, 0), Color::from_rgb(0, 0, 255)],
        uvs: [(0, 0), (0, 0), (0, 0)],
        unit: 1,
    })
    .unwrap();
    let bytes = r.capture(PixelFormat::RGBA).unwrap();
    assert_eq!(pixel(&bytes, 30, 17, 12), (64, 128, 64, 255));
}

fn glyph_a() -> Vec<GlyphBitmap> {
    vec![GlyphBitmap { id: 'a' as u32, left: 0, top: -2, width: 2, height: 2, coverage: vec![255, 255, 255, 128] }]
}

fn text_aa() -> LaidOutText {
    let gs: Vec<Glyph> = "a a"
        .chars()
        .map(|c| Glyph { id: c as u32, advance: 2, is_space: c == ' ', is_newline: false })
        .collect();
    layout(&gs, 1, FontMetrics { ascent: 2, descent: 1 }, &TextOptions::new()).unwrap()
}

#[test]
fn text_is_drawn_glyph_by_glyph() {
    let mut r = Renderer::new(10, 6);
    r.begin_frame().unwrap();
    r.clear_screen(white()).unwrap();
    r.draw_text((1, 1), Color::from_rgb(0, 0, 0), &text_aa(), &glyph_a()).unwrap();
    let bytes = r.capture(PixelFormat::RGBA).unwrap();
    assert_eq!(pixel(&bytes, 10, 1, 1), (0, 0, 0, 255));
    assert_eq!(pixel(&bytes, 10, 2, 1), (0, 0, 0, 255));
    // Half coverage: black at alpha 128 over white.
    assert_eq!(pixel(&bytes, 10, 2, 2), (127, 127, 127, 255));
    assert_eq!(pixel(&bytes, 10, 3, 1), (255, 255, 255, 255));
    assert_eq!(pixel(&bytes, 10, 5, 1), (0, 0, 0, 255));
    assert_eq!(pixel(&bytes, 10, 7, 1), (255, 255, 255, 255));
}

#[test]
fn cropped_text_is_clipped() {
    let mut r = Renderer::new(10, 6);
    r.begin_frame().unwrap();
    r.clear_screen(white()).unwrap();
    r.draw_text_cropped((1, 1), Rect::from_tuples((0, 0), (6, 6)), Color::from_rgb(0, 0, 0), &text_aa(), &glyph_a())
        .unwrap();
    let bytes = r.capture(PixelFormat::RGBA).unwrap();
    assert_eq!(pixel(&bytes, 10, 5, 1), (0, 0, 0, 255));
    assert_eq!(pixel(&bytes, 10, 6, 1), (255, 255, 255, 255));
    // The crop is gone after the call.
    r.draw_rectangle(Rect::from_tuples((8, 0), (9, 1)), Color::from_rgb(0, 0, 0)).unwrap();
    let bytes = r.capture(PixelFormat::RGBA).unwrap();
    assert_eq!(pixel(&bytes, 10, 8, 0), (0, 0, 0, 255));
}

#[test]
fn glyph_mask_length_is_checked() {
    let mut r = Renderer::new(4, 4);
    r.begin_frame().unwrap();
    assert_eq!(
        r.draw_glyph_mask(0, 0, 2, 2, &vec![255; 3], Color::from_rgb(0, 0, 0)),
        Err(RenderError::InvalidImageData)
    );
}

#[test]
fn polygon_offset_moves_it() {
    let mut r = Renderer::new(20, 20);
    r.begin_frame().unwrap();
    r.clear_screen(white()).unwrap();
    r.draw_polygon(vec![(0, 0), (4, 0), (4, 4), (0, 4)], (10, 5), Color::from_rgb(0, 0, 0)).unwrap();
    let bytes = r.capture(PixelFormat::RGBA).unwrap();
    assert_eq!(pixel(&bytes, 20, 10, 5), (0, 0, 0, 255));
    assert_eq!(pixel(&bytes, 20, 13, 8), (0, 0, 0, 255));
    assert_eq!(pixel(&bytes, 20, 14, 8), (255, 255, 255, 255));
    assert_eq!(pixel(&bytes, 20, 1, 1), (255, 255, 255, 255));
}

#[test]
fn clear_reaches_every_pixel() {
    let mut r = Renderer::new(7, 3);
    r.begin_frame().unwrap();
    r.clear_screen(Color::from_rgba(9, 8, 7, 6)).unwrap();
    let bytes = r.capture(PixelFormat::RGBA).unwrap();
    assert!(bytes.chunks(4).all(|p| p == [9, 8, 7, 6]));
}
