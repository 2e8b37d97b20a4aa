use speedy2d::text::{
    break_lines, layout, FontMetrics, Glyph, LaidOutText, LayoutError, LineSpan, PlacedGlyph,
    TextAlignment, TextOptions,
};

fn glyphs(s: &str, advance: u32) -> Vec<Glyph> {
    s.chars()
        .map(|c| Glyph { id: c as u32, advance, is_space: c == ' ', is_newline: c == '\n' })
        .collect()
}

fn metrics() -> FontMetrics {
    FontMetrics { ascent: 8, descent: 2 }
}

fn xs(t: &LaidOutText, line: usize) -> Vec<i128> {
    t.lines[line].glyphs.iter().map(|g| g.x).collect()
}

#[test]
fn wrapped_lines_fit_the_width() {
    let gs = glyphs("aa bb cc dd", 1);
    let opts = TextOptions::new().with_wrap_to_width(50, TextAlignment::Left);
    let t = layout(&gs, 10, metrics(), &opts).unwrap();
    assert_eq!(t.lines.len(), 2);
    assert_eq!(t.lines[0].span, LineSpan { start: 0, vis_start: 0, vis_end: 5, end: 6 });
    assert_eq!(t.lines[1].span, LineSpan { start: 6, vis_start: 6, vis_end: 11, end: 11 });
    for line in &t.lines {
        assert!(line.width <= 50);
    }
    assert_eq!(t.width, 50);
}

#[test]
fn overlong_word_stands_alone() {
    let gs = glyphs("a verylongword b", 1);
    let spans = break_lines(&gs, 10, 0, Some(30));
    assert_eq!(
        spans,
        vec![
            LineSpan { start: 0, vis_start: 0, vis_end: 1, end: 2 },
            LineSpan { start: 2, vis_start: 2, vis_end: 14, end: 15 },
            LineSpan { start: 15, vis_start: 15, vis_end: 16, end: 16 },
        ]
    );
}

#[test]
fn narrow_wrap_keeps_each_glyph() {
    let gs = glyphs("x y", 1);
    let opts = TextOptions::new().with_wrap_to_width(1, TextAlignment::Left);
    let t = layout(&gs, 10, metrics(), &opts).unwrap();
    assert_eq!(t.lines.len(), 2);
    assert_eq!(t.lines[0].width, 10);
    assert_eq!(t.lines[1].width, 10);
}

#[test]
fn trimming_changes_edges_only() {
    let gs = glyphs("  Trimming   on ", 1);
    let on = layout(&gs, 10, metrics(), &TextOptions::new()).unwrap();
    let off = layout(&gs, 10, metrics(), &TextOptions::new().with_trim_each_line(false)).unwrap();
    assert_eq!(on.lines.len(), 1);
    assert_eq!(off.lines.len(), 1);
    assert_eq!(on.lines[0].glyphs.len(), off.lines[0].glyphs.len());
    assert_eq!(on.lines[0].width, 130);
    assert_eq!(off.lines[0].width, 160);
    let a = xs(&on, 0);
    let b = xs(&off, 0);
    for k in 0..a.len() {
        assert_eq!(a[k] - b[k], -20);
    }
    assert_eq!(a[2], 0);
    assert_eq!(b[2], 20);
}

#[test]
fn layout_is_repeatable() {
    let gs = glyphs("The quick brown fox\njumped over the lazy dog!", 3);
    let opts = TextOptions::new().with_wrap_to_width(300, TextAlignment::Center).with_tracking(2);
    let a = layout(&gs, 7, metrics(), &opts).unwrap();
    let b = layout(&gs, 7, metrics(), &opts).unwrap();
    assert_eq!(a.width, b.width);
    assert_eq!(a.height, b.height);
    assert_eq!(a.lines.len(), b.lines.len());
    for i in 0..a.lines.len() {
        assert_eq!(a.lines[i].span, b.lines[i].span);
        assert_eq!(a.lines[i].baseline_y, b.lines[i].baseline_y);
        assert_eq!(a.lines[i].width, b.lines[i].width);
        assert_eq!(a.lines[i].glyphs, b.lines[i].glyphs);
    }
}

#[test]
fn empty_text_has_no_lines() {
    let t = layout(&Vec::new(), 10, metrics(), &TextOptions::new()).unwrap();
    assert_eq!(t.lines.len(), 0);
    assert_eq!(t.width, 0);
    assert_eq!(t.height, 0);
}

#[test]
fn line_breaks_make_lines_and_height() {
    let gs = glyphs("\nab\n\ncd", 1);
    let opts = TextOptions::new().with_line_spacing_percent(150);
    let t = layout(&gs, 1, metrics(), &opts).unwrap();
    assert_eq!(t.lines.len(), 4);
    assert_eq!(t.lines[0].glyphs.len(), 0);
    assert_eq!(t.lines[1].glyphs.len(), 2);
    assert_eq!(t.lines[2].glyphs.len(), 0);
    assert_eq!(t.lines[3].glyphs.len(), 2);
    assert_eq!(t.lines[3].baseline_y, 8 + 3 * 15);
    assert_eq!(t.lines[0].ascent, 8);
    assert_eq!(t.lines[0].descent, 2);
    assert_eq!(t.height, 3 * 15 + 10);
}

#[test]
fn zero_size_is_rejected() {
    let gs = glyphs("ab", 1);
    assert!(matches!(
        layout(&gs, 0, metrics(), &TextOptions::new()),
        Err(LayoutError::InvalidSize)
    ));
}

#[test]
fn alignment_places_lines() {
    let gs = glyphs("ab cd", 1);
    let centre = layout(&gs, 10, metrics(), &TextOptions::new().with_wrap_to_width(100, TextAlignment::Center)).unwrap();
    assert_eq!(xs(&centre, 0)[0], 25);
    let right = layout(&gs, 10, metrics(), &TextOptions::new().with_wrap_to_width(100, TextAlignment::Right)).unwrap();
    assert_eq!(xs(&right, 0)[0], 50);
    let gs = glyphs("  ab", 1);
    let right = layout(&gs, 10, metrics(), &TextOptions::new().with_wrap_to_width(100, TextAlignment::Right)).unwrap();
    assert_eq!(xs(&right, 0), vec![60, 70, 80, 90]);
}

#[test]
fn tracking_adds_to_advances() {
    let gs = glyphs("abc", 2);
    let t = layout(&gs, 5, metrics(), &TextOptions::new().with_tracking(3)).unwrap();
    assert_eq!(
        t.lines[0].glyphs,
        vec![
            PlacedGlyph { id: 'a' as u32, x: 0, advance: 13 },
            PlacedGlyph { id: 'b' as u32, x: 13, advance: 13 },
            PlacedGlyph { id: 'c' as u32, x: 26, advance: 13 },
        ]
    );
    assert_eq!(t.width, 39);
}
