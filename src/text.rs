use vstd::prelude::*;

verus! {

/// One glyph of the text to lay out, as the font reports it: its advance at
/// unit size, and whether it is whitespace or a line break.
#[derive(Clone, Copy, Debug, PartialEq, Eq, Structural)]
pub struct Glyph {
    pub id: u32,
    pub advance: u32,
    pub is_space: bool,
    pub is_newline: bool,
}

/// Horizontal placement of each line within the wrap width.
#[derive(Clone, Copy, Debug, PartialEq, Eq, Structural)]
pub enum TextAlignment {
    Left,
    Center,
    Right,
}

/// The glyph range of one line: `start..end` are its glyphs, and
/// `vis_start..vis_end` the part left once whitespace at its edges is set aside.
#[derive(Clone, Copy, Debug, PartialEq, Eq, Structural)]
pub struct LineSpan {
    pub start: usize,
    pub vis_start: usize,
    pub vis_end: usize,
    pub end: usize,
}

/// The advance of a glyph at `size`, plus the extra spacing `tracking`.
pub open spec fn glyph_advance(g: Glyph, size: u32, tracking: u32) -> int {
    g.advance as int * size as int + tracking as int
}

/// The summed advances of glyphs `lo..hi`.
pub open spec fn span_width(gs: Seq<Glyph>, size: u32, tracking: u32, lo: int, hi: int) -> int
    decreases hi - lo,
{
    if hi <= lo {
        0
    } else {
        span_width(gs, size, tracking, lo, hi - 1) + glyph_advance(gs[hi - 1], size, tracking)
    }
}

/// The glyph range is one line that holds no line break, and only whitespace
/// lies outside its visible part, which starts and ends with a visible glyph.
pub open spec fn line_span_ok(gs: Seq<Glyph>, l: LineSpan) -> bool {
    &&& l.start <= l.vis_start <= l.vis_end <= l.end <= gs.len()
    &&& forall|k: int| l.start <= k < l.end ==> !(#[trigger] gs[k]).is_newline
    &&& forall|k: int|
        (l.start <= k < l.vis_start || l.vis_end <= k < l.end) ==> (#[trigger] gs[k]).is_space
    &&& l.vis_start < l.vis_end ==> !gs[l.vis_start as int].is_space && !gs[l.vis_end - 1].is_space
    &&& l.vis_start == l.vis_end ==> l.vis_start == l.start
}

/// No whitespace inside `lo..hi`: the range is at most one word.
pub open spec fn single_word(gs: Seq<Glyph>, lo: int, hi: int) -> bool {
    forall|k: int| lo <= k < hi ==> !(#[trigger] gs[k]).is_space
}

/// The visible part of the line fits in the wrap width, or is a single word.
pub open spec fn line_fits(gs: Seq<Glyph>, size: u32, tracking: u32, wrap: Option<u32>, l: LineSpan) -> bool {
    match wrap {
        None => true,
        Some(w) => span_width(gs, size, tracking, l.vis_start as int, l.vis_end as int) <= w
            || single_word(gs, l.vis_start as int, l.vis_end as int),
    }
}

/// How line `i` joins line `i + 1`: at a line break glyph, which neither line
/// holds, or at a wrap, between whitespace and the visible glyph that starts
/// the next line.
pub open spec fn lines_join(gs: Seq<Glyph>, a: LineSpan, b: LineSpan) -> bool {
    (a.end < gs.len() && gs[a.end as int].is_newline && b.start == a.end + 1) || (0 < a.end
        < gs.len() && !gs[a.end as int].is_newline && !gs[a.end as int].is_space && gs[a.end
        - 1].is_space && b.start == a.end)
}

/// The end of the word that starts at `k`: the first whitespace, line break
/// or end of text at or after `k`.
pub open spec fn word_end(gs: Seq<Glyph>, k: int) -> int
    decreases gs.len() - k,
{
    if k < 0 || k >= gs.len() || gs[k].is_space || gs[k].is_newline {
        k
    } else {
        word_end(gs, k + 1)
    }
}

/// A line that ends at a wrap, rather than at a line break, ends there only
/// because the next word would take its visible part past the wrap width.
pub open spec fn wrap_is_forced(
    gs: Seq<Glyph>,
    size: u32,
    tracking: u32,
    wrap: Option<u32>,
    a: LineSpan,
    b: LineSpan,
) -> bool {
    b.start == a.end ==> (wrap matches Some(w) && a.vis_start < a.vis_end && span_width(
        gs,
        size,
        tracking,
        a.vis_start as int,
        word_end(gs, a.end as int),
    ) > w)
}

/// The line ranges cover all glyphs in order, split at every line break.
pub open spec fn lines_partition(gs: Seq<Glyph>, lines: Seq<LineSpan>) -> bool {
    &&& gs.len() == 0 ==> lines.len() == 0
    &&& gs.len() > 0 ==> lines.len() > 0 && lines[0].start == 0 && lines.last().end == gs.len()
    &&& forall|i: int| 0 <= i < lines.len() ==> line_span_ok(gs, #[trigger] lines[i])
    &&& forall|i: int| 0 <= i < lines.len() - 1 ==> #[trigger] lines_join(gs, lines[i], lines[i + 1])
}

proof fn lemma_span_split(gs: Seq<Glyph>, size: u32, tracking: u32, lo: int, mid: int, hi: int)
    requires
        lo <= mid <= hi,
    ensures
        span_width(gs, size, tracking, lo, hi) == span_width(gs, size, tracking, lo, mid)
            + span_width(gs, size, tracking, mid, hi),
    decreases hi - mid,
{
    if mid < hi {
        lemma_span_split(gs, size, tracking, lo, mid, hi - 1);
    }
}

proof fn lemma_span_bounds(gs: Seq<Glyph>, size: u32, tracking: u32, lo: int, hi: int)
    requires
        lo <= hi,
    ensures
        0 <= span_width(gs, size, tracking, lo, hi) <= (hi - lo) * 0x1_0000_0000_0000_0000,
    decreases hi - lo,
{
    if lo < hi {
        lemma_span_bounds(gs, size, tracking, lo, hi - 1);
        let g = gs[hi - 1];
        assert(0 <= g.advance as int * size as int <= 0xffff_ffff * 0xffff_ffff) by (nonlinear_arith)
            requires 0 <= g.advance <= 0xffff_ffff, 0 <= size <= 0xffff_ffff;
    }
}

/// Sums the advances of glyphs `lo..hi`.
fn span_exec(gs: &Vec<Glyph>, size: u32, tracking: u32, lo: usize, hi: usize) -> (r: u128)
    requires
        lo <= hi <= gs@.len(),
        gs@.len() <= 0xffff_ffff,
    ensures
        r == span_width(gs@, size, tracking, lo as int, hi as int),
{
    let mut acc: u128 = 0;
    let mut k = lo;
    while k < hi
        invariant
            lo <= k <= hi <= gs@.len(),
            gs@.len() <= 0xffff_ffff,
            acc == span_width(gs@, size, tracking, lo as int, k as int),
        decreases hi - k,
    {
        proof {
            lemma_span_bounds(gs@, size, tracking, lo as int, k + 1);
            assert((k + 1 - lo) * 0x1_0000_0000_0000_0000 <= 0xffff_ffff * 0x1_0000_0000_0000_0000)
                by (nonlinear_arith) requires k + 1 - lo <= 0xffff_ffff;
        }
        let g = gs[k];
        assert(0 <= g.advance as int * size as int <= 0xffff_ffff * 0xffff_ffff) by (nonlinear_arith)
            requires 0 <= g.advance <= 0xffff_ffff, 0 <= size <= 0xffff_ffff;
        acc = acc + (g.advance as u128) * (size as u128) + (tracking as u128);
        k = k + 1;
    }
    acc
}

/// Splits the glyphs into lines: at every line break, and, with a wrap width,
/// greedily before a word that would take the line past it. A word wider than
/// the wrap width stands alone on its line and is never split.
pub fn break_lines(gs: &Vec<Glyph>, size: u32, tracking: u32, wrap: Option<u32>) -> (lines: Vec<
    LineSpan,
>)
    requires
        gs@.len() <= 0xffff_ffff,
    ensures
        lines_partition(gs@, lines@),
        lines@.len() <= gs@.len() + 1,
        forall|i: int|
            0 <= i < lines@.len() - 1 ==> #[trigger] wrap_is_forced(
                gs@,
                size,
                tracking,
                wrap,
                lines@[i],
                lines@[i + 1],
            ),
        forall|i: int| 0 <= i < lines@.len() ==> line_fits(gs@, size, tracking, wrap, #[trigger] lines@[i]),
{
    let n = gs.len();
    let mut lines: Vec<LineSpan> = Vec::new();
    if n == 0 {
        return lines;
    }
    let mut start: usize = 0;
    let mut vs: usize = 0;
    let mut ve: usize = 0;
    let mut has_word = false;
    let mut vis_w: u128 = 0;
    let mut i: usize = 0;
    while i < n
        invariant
            n == gs@.len(),
            n <= 0xffff_ffff,
            n > 0,
            start <= vs <= ve <= i <= n,
            !has_word ==> vs == start && ve == start,
            has_word ==> vs < ve && !gs@[vs as int].is_space && !gs@[ve - 1].is_space,
            has_word && ve == i ==> i == n || gs@[i as int].is_space || gs@[i as int].is_newline,
            forall|k: int| start <= k < i ==> !(#[trigger] gs@[k]).is_newline,
            forall|k: int| (start <= k < vs || ve <= k < i) ==> (#[trigger] gs@[k]).is_space,
            vis_w == span_width(gs@, size, tracking, vs as int, ve as int),
            line_fits(gs@, size, tracking, wrap, LineSpan { start, vis_start: vs, vis_end: ve, end: i }),
            lines@.len() == 0 ==> start == 0,
            lines@.len() <= start,
            lines@.len() > 0 ==> lines@[0].start == 0 && lines_join(
                gs@,
                lines@.last(),
                LineSpan { start, vis_start: vs, vis_end: ve, end: i },
            ),
            forall|j: int| 0 <= j < lines@.len() ==> line_span_ok(gs@, #[trigger] lines@[j]),
            forall|j: int| 0 <= j < lines@.len() ==> line_fits(gs@, size, tracking, wrap, #[trigger] lines@[j]),
            forall|j: int| 0 <= j < lines@.len() - 1 ==> #[trigger] lines_join(gs@, lines@[j], lines@[j + 1]),
            forall|j: int|
                0 <= j < lines@.len() - 1 ==> #[trigger] wrap_is_forced(
                    gs@,
                    size,
                    tracking,
                    wrap,
                    lines@[j],
                    lines@[j + 1],
                ),
            lines@.len() > 0 ==> wrap_is_forced(
                gs@,
                size,
                tracking,
                wrap,
                lines@.last(),
                LineSpan { start, vis_start: vs, vis_end: ve, end: i },
            ),
        decreases n - i,
    {
        let g = gs[i];
        if g.is_newline {
            let l = LineSpan { start, vis_start: vs, vis_end: ve, end: i };
            lines.push(l);
            start = i + 1;
            vs = i + 1;
            ve = i + 1;
            has_word = false;
            vis_w = 0;
            i = i + 1;
        } else if g.is_space {
            i = i + 1;
        } else {
            let mut j = i + 1;
            while j < n && !gs[j].is_space && !gs[j].is_newline
                invariant
                    n == gs@.len(),
                    i < j <= n,
                    word_end(gs@, i as int) == word_end(gs@, j as int),
                    forall|k: int| i <= k < j ==> !(#[trigger] gs@[k]).is_space && !gs@[k].is_newline,
                decreases n - j,
            {
                j = j + 1;
            }
            assert(word_end(gs@, j as int) == j as int);
            let gap = span_exec(gs, size, tracking, ve, j);
            proof {
                lemma_span_split(gs@, size, tracking, vs as int, ve as int, j as int);
                lemma_span_bounds(gs@, size, tracking, vs as int, j as int);
                assert((j - vs) * 0x1_0000_0000_0000_0000 <= 0xffff_ffff * 0x1_0000_0000_0000_0000)
                    by (nonlinear_arith) requires j - vs <= 0xffff_ffff;
            }
            let too_wide = match wrap {
                None => false,
                Some(w) => vis_w + gap > w as u128,
            };
            if has_word && too_wide {
                let l = LineSpan { start, vis_start: vs, vis_end: ve, end: i };
                lines.push(l);
                start = i;
                vs = i;
                ve = j;
                vis_w = span_exec(gs, size, tracking, i, j);
            } else if has_word {
                ve = j;
                vis_w = vis_w + gap;
            } else {
                vs = i;
                ve = j;
                has_word = true;
                vis_w = span_exec(gs, size, tracking, i, j);
            }
            i = j;
        }
    }
    let l = LineSpan { start, vis_start: vs, vis_end: ve, end: n };
    lines.push(l);
    lines
}

/// How text is laid out.
#[derive(Clone, Copy, Debug, PartialEq, Eq, Structural)]
pub struct TextOptions {
    /// The width to wrap lines at; `None` leaves lines unwrapped.
    pub wrap_width: Option<u32>,
    pub alignment: TextAlignment,
    /// The distance between baselines, in percent of the font's line height.
    pub line_spacing_percent: u32,
    /// Extra space after each glyph.
    pub tracking: u32,
    /// Whether whitespace at the edges of a line is left out of its width and placement.
    pub trim_each_line: bool,
}

impl TextOptions {
    /// No wrapping, left aligned, single spacing, no tracking, trimmed lines.
    pub fn new() -> (o: TextOptions)
        ensures
            o == (TextOptions {
                wrap_width: None,
                alignment: TextAlignment::Left,
                line_spacing_percent: 100,
                tracking: 0,
                trim_each_line: true,
            }),
    {
        TextOptions {
            wrap_width: None,
            alignment: TextAlignment::Left,
            line_spacing_percent: 100,
            tracking: 0,
            trim_each_line: true,
        }
    }

    /// These options with lines wrapped at `width` and aligned by `alignment`.
    pub fn with_wrap_to_width(self, width: u32, alignment: TextAlignment) -> (o: TextOptions)
        ensures
            o == (TextOptions { wrap_width: Some(width), alignment, ..self }),
    {
        TextOptions { wrap_width: Some(width), alignment, ..self }
    }

    /// These options with edge whitespace trimmed or kept.
    pub fn with_trim_each_line(self, trim: bool) -> (o: TextOptions)
        ensures
            o == (TextOptions { trim_each_line: trim, ..self }),
    {
        TextOptions { trim_each_line: trim, ..self }
    }

    /// These options with the given baseline distance, in percent of the line height.
    pub fn with_line_spacing_percent(self, percent: u32) -> (o: TextOptions)
        ensures
            o == (TextOptions { line_spacing_percent: percent, ..self }),
    {
        TextOptions { line_spacing_percent: percent, ..self }
    }

    /// These options with `tracking` added after each glyph.
    pub fn with_tracking(self, tracking: u32) -> (o: TextOptions)
        ensures
            o == (TextOptions { tracking, ..self }),
    {
        TextOptions { tracking, ..self }
    }
}

/// A font's vertical metrics at unit size.
#[derive(Clone, Copy, Debug, PartialEq, Eq, Structural)]
pub struct FontMetrics {
    pub ascent: u16,
    pub descent: u16,
}

/// A glyph placed on a line: its pen position relative to the line's origin.
#[derive(Clone, Copy, Debug, PartialEq, Eq, Structural)]
pub struct PlacedGlyph {
    pub id: u32,
    pub x: i128,
    pub advance: u128,
}

/// One laid-out line.
pub struct TextLine {
    pub span: LineSpan,
    pub baseline_y: u128,
    pub ascent: u128,
    pub descent: u128,
    pub width: u128,
    pub glyphs: Vec<PlacedGlyph>,
}

/// Laid-out text: its lines, and the size of the box that holds them.
pub struct LaidOutText {
    pub width: u128,
    pub height: u128,
    pub lines: Vec<TextLine>,
}

/// Why text could not be laid out.
#[derive(Clone, Copy, Debug, PartialEq, Eq, Structural)]
pub enum LayoutError {
    InvalidSize,
}

/// The measured width of a line.
pub open spec fn line_width(gs: Seq<Glyph>, size: u32, opts: TextOptions, l: LineSpan) -> int {
    if opts.trim_each_line {
        span_width(gs, size, opts.tracking, l.vis_start as int, l.vis_end as int)
    } else {
        span_width(gs, size, opts.tracking, l.start as int, l.end as int)
    }
}

/// The width of the whitespace that trimming sets aside at the start of a line.
pub open spec fn lead_width(gs: Seq<Glyph>, size: u32, opts: TextOptions, l: LineSpan) -> int {
    if opts.trim_each_line {
        span_width(gs, size, opts.tracking, l.start as int, l.vis_start as int)
    } else {
        0
    }
}

/// The widest of the lines.
pub open spec fn max_line_width(gs: Seq<Glyph>, size: u32, opts: TextOptions, spans: Seq<LineSpan>) -> int
    decreases spans.len(),
{
    if spans.len() == 0 {
        0
    } else {
        let rest = max_line_width(gs, size, opts, spans.drop_last());
        let w = line_width(gs, size, opts, spans.last());
        if w > rest {
            w
        } else {
            rest
        }
    }
}

/// Where a line of width `lw` starts within a box of width `area`; a line
/// wider than the box starts at its left edge.
pub open spec fn line_offset(area: int, lw: int, a: TextAlignment) -> int {
    if lw >= area {
        0
    } else {
        match a {
            TextAlignment::Left => 0,
            TextAlignment::Right => area - lw,
            TextAlignment::Center => (area - lw) / 2,
        }
    }
}

/// The pen position of glyph `k` of line `l`.
pub open spec fn glyph_x(gs: Seq<Glyph>, size: u32, opts: TextOptions, area: int, l: LineSpan, k: int) -> int {
    line_offset(area, line_width(gs, size, opts, l), opts.alignment) - lead_width(gs, size, opts, l)
        + span_width(gs, size, opts.tracking, l.start as int, k)
}

/// The line ranges of laid-out lines.
pub open spec fn spans_of(lines: Seq<TextLine>) -> Seq<LineSpan> {
    Seq::new(lines.len(), |i: int| lines[i].span)
}

/// The height of one line at `size`.
pub open spec fn line_height(m: FontMetrics, size: u32) -> int {
    (m.ascent as int + m.descent as int) * size as int
}

/// The distance from one baseline to the next.
pub open spec fn baseline_step(m: FontMetrics, size: u32, opts: TextOptions) -> int {
    line_height(m, size) * opts.line_spacing_percent as int / 100
}

/// What `layout` returns for glyphs `gs` on success.
pub open spec fn laid_out_as(gs: Seq<Glyph>, size: u32, m: FontMetrics, opts: TextOptions, t: LaidOutText) -> bool {
    let spans = spans_of(t.lines@);
    let area = match opts.wrap_width {
        Some(w) => w as int,
        None => max_line_width(gs, size, opts, spans),
    };
    &&& lines_partition(gs, spans)
    &&& forall|i: int| 0 <= i < spans.len() ==> line_fits(gs, size, opts.tracking, opts.wrap_width, #[trigger] spans[i])
    &&& forall|i: int|
        0 <= i < spans.len() - 1 ==> #[trigger] wrap_is_forced(
            gs,
            size,
            opts.tracking,
            opts.wrap_width,
            spans[i],
            spans[i + 1],
        )
    &&& t.width == max_line_width(gs, size, opts, spans)
    &&& t.height == if spans.len() == 0 {
        0
    } else {
        (spans.len() - 1) * baseline_step(m, size, opts) + line_height(m, size)
    }
    &&& forall|i: int|
        0 <= i < t.lines@.len() ==> line_laid_out(gs, size, m, opts, area, i, #[trigger] t.lines@[i])
}

/// Line `i` of laid-out text, placed in a box of width `area`.
pub open spec fn line_laid_out(
    gs: Seq<Glyph>,
    size: u32,
    m: FontMetrics,
    opts: TextOptions,
    area: int,
    i: int,
    line: TextLine,
) -> bool {
    let l = line.span;
    &&& line.width == line_width(gs, size, opts, l)
    &&& line.baseline_y == m.ascent as int * size as int + i * baseline_step(m, size, opts)
    &&& line.ascent == m.ascent as int * size as int
    &&& line.descent == m.descent as int * size as int
    &&& line.glyphs@.len() == l.end - l.start
    &&& forall|j: int|
        0 <= j < line.glyphs@.len() ==> {
            let pg = #[trigger] line.glyphs@[j];
            &&& pg.id == gs[l.start + j].id
            &&& pg.advance == glyph_advance(gs[l.start + j], size, opts.tracking)
            &&& pg.x == glyph_x(gs, size, opts, area, l, l.start + j)
        }
}

proof fn lemma_max_line_width_bounds(gs: Seq<Glyph>, size: u32, opts: TextOptions, spans: Seq<LineSpan>)
    requires
        gs.len() <= 0xffff_ffff,
        forall|i: int| 0 <= i < spans.len() ==> line_span_ok(gs, #[trigger] spans[i]),
    ensures
        0 <= max_line_width(gs, size, opts, spans) <= 0xffff_ffff * 0x1_0000_0000_0000_0000,
    decreases spans.len(),
{
    if spans.len() > 0 {
        let l = spans.last();
        assert(line_span_ok(gs, spans[spans.len() - 1]));
        assert forall|i: int| 0 <= i < spans.drop_last().len() implies line_span_ok(gs, #[trigger] spans.drop_last()[i]) by {
            assert(spans.drop_last()[i] == spans[i]);
        }
        lemma_max_line_width_bounds(gs, size, opts, spans.drop_last());
        lemma_line_width_bounds(gs, size, opts, l);
    }
}

proof fn lemma_line_width_bounds(gs: Seq<Glyph>, size: u32, opts: TextOptions, l: LineSpan)
    requires
        gs.len() <= 0xffff_ffff,
        line_span_ok(gs, l),
    ensures
        0 <= line_width(gs, size, opts, l) <= 0xffff_ffff * 0x1_0000_0000_0000_0000,
        0 <= lead_width(gs, size, opts, l) <= 0xffff_ffff * 0x1_0000_0000_0000_0000,
{
    lemma_span_bounds(gs, size, opts.tracking, l.vis_start as int, l.vis_end as int);
    lemma_span_bounds(gs, size, opts.tracking, l.start as int, l.end as int);
    lemma_span_bounds(gs, size, opts.tracking, l.start as int, l.vis_start as int);
    assert((l.end - l.start) * 0x1_0000_0000_0000_0000 <= 0xffff_ffff * 0x1_0000_0000_0000_0000) by (nonlinear_arith)
        requires l.end - l.start <= 0xffff_ffff;
    assert((l.vis_end - l.vis_start) * 0x1_0000_0000_0000_0000 <= 0xffff_ffff * 0x1_0000_0000_0000_0000) by (nonlinear_arith)
        requires l.vis_end - l.vis_start <= 0xffff_ffff;
    assert((l.vis_start - l.start) * 0x1_0000_0000_0000_0000 <= 0xffff_ffff * 0x1_0000_0000_0000_0000) by (nonlinear_arith)
        requires l.vis_start - l.start <= 0xffff_ffff;
}

/// The measured width of a line.
fn line_width_exec(gs: &Vec<Glyph>, size: u32, opts: &TextOptions, l: LineSpan) -> (w: u128)
    requires
        gs@.len() <= 0xffff_ffff,
        line_span_ok(gs@, l),
    ensures
        w == line_width(gs@, size, *opts, l),
{
    if opts.trim_each_line {
        span_exec(gs, size, opts.tracking, l.vis_start, l.vis_end)
    } else {
        span_exec(gs, size, opts.tracking, l.start, l.end)
    }
}

/// Places the glyphs of one line.
fn place_line(
    gs: &Vec<Glyph>,
    size: u32,
    m: FontMetrics,
    opts: &TextOptions,
    area: u128,
    i: usize,
    l: LineSpan,
) -> (line: TextLine)
    requires
        gs@.len() <= 0xffff_ffff,
        line_span_ok(gs@, l),
        i <= 0x1_0000_0000,
        area <= 0xffff_ffff * 0x1_0000_0000_0000_0000,
    ensures
        line.span == l,
        line_laid_out(gs@, size, m, *opts, area as int, i as int, line),
{
    proof {
        lemma_line_width_bounds(gs@, size, *opts, l);
    }
    let lw = line_width_exec(gs, size, opts, l);
    let lead: u128 = if opts.trim_each_line {
        span_exec(gs, size, opts.tracking, l.start, l.vis_start)
    } else {
        0
    };
    let offset: u128 = if lw >= area {
        0
    } else {
        match opts.alignment {
            TextAlignment::Left => 0,
            TextAlignment::Right => area - lw,
            TextAlignment::Center => (area - lw) / 2,
        }
    };
    let ghost origin = offset as int - lead as int;
    let mut glyphs: Vec<PlacedGlyph> = Vec::new();
    let mut pen: u128 = 0;
    let mut k = l.start;
    while k < l.end
        invariant
            gs@.len() <= 0xffff_ffff,
            line_span_ok(gs@, l),
            l.start <= k <= l.end,
            offset <= 0xffff_ffff * 0x1_0000_0000_0000_0000,
            lead <= 0xffff_ffff * 0x1_0000_0000_0000_0000,
            lw == line_width(gs@, size, *opts, l),
            offset == line_offset(area as int, lw as int, opts.alignment),
            lead == lead_width(gs@, size, *opts, l),
            pen == span_width(gs@, size, opts.tracking, l.start as int, k as int),
            glyphs@.len() == k - l.start,
            forall|j: int|
                0 <= j < glyphs@.len() ==> {
                    let pg = #[trigger] glyphs@[j];
                    &&& pg.id == gs@[l.start + j].id
                    &&& pg.advance == glyph_advance(gs@[l.start + j], size, opts.tracking)
                    &&& pg.x == glyph_x(gs@, size, *opts, area as int, l, l.start + j)
                },
        decreases l.end - k,
    {
        proof {
            lemma_span_bounds(gs@, size, opts.tracking, l.start as int, k + 1);
            assert((k + 1 - l.start) * 0x1_0000_0000_0000_0000 <= 0xffff_ffff * 0x1_0000_0000_0000_0000)
                by (nonlinear_arith) requires k + 1 - l.start <= 0xffff_ffff;
        }
        let g = gs[k];
        assert(0 <= g.advance as int * size as int <= 0xffff_ffff * 0xffff_ffff) by (nonlinear_arith)
            requires 0 <= g.advance <= 0xffff_ffff, 0 <= size <= 0xffff_ffff;
        let adv: u128 = (g.advance as u128) * (size as u128) + (opts.tracking as u128);
        let x: i128 = offset as i128 - lead as i128 + pen as i128;
        glyphs.push(PlacedGlyph { id: g.id, x, advance: adv });
        pen = pen + adv;
        k = k + 1;
    }
    let a = m.ascent as u128;
    let d = m.descent as u128;
    let sz = size as u128;
    let pct = opts.line_spacing_percent as u128;
    assert((a + d) * sz <= 0x2_0000 * 0x1_0000_0000) by (nonlinear_arith)
        requires a + d <= 0x2_0000, sz <= 0x1_0000_0000;
    assert(a * sz <= 0x2_0000 * 0x1_0000_0000) by (nonlinear_arith)
        requires a <= 0x2_0000, sz <= 0x1_0000_0000;
    assert(d * sz <= 0x2_0000 * 0x1_0000_0000) by (nonlinear_arith)
        requires d <= 0x2_0000, sz <= 0x1_0000_0000;
    let lh = (a + d) * sz;
    assert(lh * pct <= 0x2_0000 * 0x1_0000_0000 * 0x1_0000_0000) by (nonlinear_arith)
        requires lh <= 0x2_0000 * 0x1_0000_0000, pct <= 0x1_0000_0000;
    let step = lh * pct / 100;
    assert((i as u128) * step <= 0x1_0000_0000 * (0x2_0000 * 0x1_0000_0000 * 0x1_0000_0000)) by (nonlinear_arith)
        requires i <= 0x1_0000_0000, step <= 0x2_0000 * 0x1_0000_0000 * 0x1_0000_0000;
    TextLine {
        span: l,
        baseline_y: a * sz + (i as u128) * step,
        ascent: a * sz,
        descent: d * sz,
        width: lw,
        glyphs,
    }
}

/// Lays out glyphs `gs` at `size`: lines split at line breaks and, with a wrap
/// width, wrapped greedily between words; each line placed by the alignment,
/// its edge whitespace set aside when trimming; baselines spaced by the line
/// height scaled by the line spacing. Fails with `InvalidSize` when `size` is 0.
pub fn layout(gs: &Vec<Glyph>, size: u32, metrics: FontMetrics, opts: &TextOptions) -> (r: Result<
    LaidOutText,
    LayoutError,
>)
    requires
        gs@.len() <= 0xffff_ffff,
    ensures
        size == 0 ==> r matches Err(LayoutError::InvalidSize),
        size > 0 ==> (r matches Ok(t) && laid_out_as(gs@, size, metrics, *opts, t)),
{
    if size == 0 {
        return Err(LayoutError::InvalidSize);
    }
    let spans = break_lines(gs, size, opts.tracking, opts.wrap_width);
    let n = spans.len();
    let mut maxw: u128 = 0;
    let mut i: usize = 0;
    while i < n
        invariant
            gs@.len() <= 0xffff_ffff,
            n == spans@.len(),
            i <= n,
            forall|j: int| 0 <= j < spans@.len() ==> line_span_ok(gs@, #[trigger] spans@[j]),
            maxw == max_line_width(gs@, size, *opts, spans@.take(i as int)),
        decreases n - i,
    {
        proof {
            assert(spans@.take(i + 1).drop_last() =~= spans@.take(i as int));
            assert(line_span_ok(gs@, spans@[i as int]));
            lemma_line_width_bounds(gs@, size, *opts, spans@[i as int]);
        }
        let w = line_width_exec(gs, size, opts, spans[i]);
        if w > maxw {
            maxw = w;
        }
        i = i + 1;
    }
    proof {
        assert(spans@.take(n as int) =~= spans@);
        lemma_max_line_width_bounds(gs@, size, *opts, spans@);
    }
    let area: u128 = match opts.wrap_width {
        Some(w) => w as u128,
        None => maxw,
    };
    let mut lines: Vec<TextLine> = Vec::new();
    let mut i: usize = 0;
    while i < n
        invariant
            gs@.len() <= 0xffff_ffff,
            n == spans@.len(),
            n <= gs@.len() + 1,
            i <= n,
            area <= 0xffff_ffff * 0x1_0000_0000_0000_0000,
            forall|j: int| 0 <= j < spans@.len() ==> line_span_ok(gs@, #[trigger] spans@[j]),
            lines@.len() == i,
            forall|j: int| 0 <= j < i ==> (#[trigger] lines@[j]).span == spans@[j],
            forall|j: int|
                0 <= j < i ==> line_laid_out(gs@, size, metrics, *opts, area as int, j, #[trigger] lines@[j]),
        decreases n - i,
    {
        let line = place_line(gs, size, metrics, opts, area, i, spans[i]);
        lines.push(line);
        i = i + 1;
    }
    let a = metrics.ascent as u128;
    let d = metrics.descent as u128;
    let sz = size as u128;
    let pct = opts.line_spacing_percent as u128;
    assert((a + d) * sz <= 0x2_0000 * 0x1_0000_0000) by (nonlinear_arith)
        requires a + d <= 0x2_0000, sz <= 0x1_0000_0000;
    let lh = (a + d) * sz;
    assert(lh * pct <= 0x2_0000 * 0x1_0000_0000 * 0x1_0000_0000) by (nonlinear_arith)
        requires lh <= 0x2_0000 * 0x1_0000_0000, pct <= 0x1_0000_0000;
    let step = lh * pct / 100;
    assert(step <= 0x2_0000 * 0x1_0000_0000 * 0x1_0000_0000);
    let height: u128 = if n == 0 {
        0
    } else {
        let lines_before = (n - 1) as u128;
        assert(lines_before * step <= 0x1_0000_0000 * (0x2_0000 * 0x1_0000_0000 * 0x1_0000_0000))
            by (nonlinear_arith)
            requires
                lines_before <= 0x1_0000_0000,
                step <= 0x2_0000 * 0x1_0000_0000 * 0x1_0000_0000,
        ;
        lines_before * step + lh
    };
    let t = LaidOutText { width: maxw, height, lines };
    assert(spans_of(t.lines@) =~= spans@);
    Ok(t)
}

/// Trimming a line or not lays out the same glyphs: every glyph moves by one
/// same distance, so their relative positions are identical, and the untrimmed
/// width exceeds the trimmed one by exactly the whitespace at the two edges.
pub proof fn lemma_trim_shifts_line_uniformly(
    gs: Seq<Glyph>,
    size: u32,
    opts: TextOptions,
    area_trimmed: int,
    area_kept: int,
    l: LineSpan,
    k1: int,
    k2: int,
)
    requires
        line_span_ok(gs, l),
    ensures
        glyph_x(gs, size, TextOptions { trim_each_line: true, ..opts }, area_trimmed, l, k1)
            - glyph_x(gs, size, TextOptions { trim_each_line: false, ..opts }, area_kept, l, k1)
            == glyph_x(gs, size, TextOptions { trim_each_line: true, ..opts }, area_trimmed, l, k2)
            - glyph_x(gs, size, TextOptions { trim_each_line: false, ..opts }, area_kept, l, k2),
        line_width(gs, size, TextOptions { trim_each_line: false, ..opts }, l) == span_width(
            gs,
            size,
            opts.tracking,
            l.start as int,
            l.vis_start as int,
        ) + line_width(gs, size, TextOptions { trim_each_line: true, ..opts }, l) + span_width(
            gs,
            size,
            opts.tracking,
            l.vis_end as int,
            l.end as int,
        ),
{
    lemma_span_split(gs, size, opts.tracking, l.start as int, l.vis_start as int, l.end as int);
    lemma_span_split(gs, size, opts.tracking, l.vis_start as int, l.vis_end as int, l.end as int);
}

/// The line ranges that `break_lines` is bound to return.
pub open spec fn breaks_ok(gs: Seq<Glyph>, size: u32, tracking: u32, wrap: Option<u32>, lines: Seq<LineSpan>) -> bool {
    &&& lines_partition(gs, lines)
    &&& forall|i: int| 0 <= i < lines.len() ==> line_fits(gs, size, tracking, wrap, #[trigger] lines[i])
    &&& forall|i: int|
        0 <= i < lines.len() - 1 ==> #[trigger] wrap_is_forced(gs, size, tracking, wrap, lines[i], lines[i + 1])
}

proof fn lemma_word_end(gs: Seq<Glyph>, k: int)
    requires
        0 <= k < gs.len(),
        !gs[k].is_space,
        !gs[k].is_newline,
    ensures
        k < word_end(gs, k) <= gs.len(),
        forall|m: int| k <= m < word_end(gs, k) ==> !(#[trigger] gs[m]).is_space && !gs[m].is_newline,
    decreases gs.len() - k,
{
    assert(word_end(gs, k) == word_end(gs, k + 1));
    if k + 1 < gs.len() && !gs[k + 1].is_space && !gs[k + 1].is_newline {
        lemma_word_end(gs, k + 1);
    } else {
        assert(word_end(gs, k + 1) == k + 1);
    }
}

proof fn lemma_span_monotone(gs: Seq<Glyph>, size: u32, tracking: u32, lo: int, a: int, b: int)
    requires
        lo <= a <= b,
    ensures
        span_width(gs, size, tracking, lo, a) <= span_width(gs, size, tracking, lo, b),
{
    lemma_span_split(gs, size, tracking, lo, a, b);
    lemma_span_bounds(gs, size, tracking, a, b);
}

proof fn lemma_same_vis_start(gs: Seq<Glyph>, a: LineSpan, b: LineSpan)
    requires
        line_span_ok(gs, a),
        line_span_ok(gs, b),
        a.start == b.start,
        a.vis_start < a.vis_end,
        a.vis_start < b.end,
    ensures
        b.vis_start == a.vis_start,
        b.vis_start < b.vis_end,
{
    assert(!gs[a.vis_start as int].is_space);
    if b.vis_start == b.vis_end {
        assert(gs[a.vis_start as int].is_space);
    }
    if b.vis_start < a.vis_start {
        assert(gs[b.vis_start as int].is_space);
    }
    if a.vis_start < b.vis_start {
        assert(gs[a.vis_start as int].is_space);
    }
}

proof fn lemma_same_range_same_vis(gs: Seq<Glyph>, a: LineSpan, b: LineSpan)
    requires
        line_span_ok(gs, a),
        line_span_ok(gs, b),
        a.start == b.start,
        a.end == b.end,
    ensures
        a == b,
{
    if a.vis_start < a.vis_end {
        lemma_same_vis_start(gs, a, b);
        if b.vis_end < a.vis_end {
            assert(gs[a.vis_end - 1].is_space);
        }
        if a.vis_end < b.vis_end {
            assert(gs[b.vis_end - 1].is_space);
        }
    } else if b.vis_start < b.vis_end {
        lemma_same_vis_start(gs, b, a);
    }
}

proof fn lemma_end_not_before(
    gs: Seq<Glyph>,
    size: u32,
    tracking: u32,
    wrap: Option<u32>,
    l1: Seq<LineSpan>,
    l2: Seq<LineSpan>,
    i: int,
    j: int,
)
    requires
        breaks_ok(gs, size, tracking, wrap, l1),
        breaks_ok(gs, size, tracking, wrap, l2),
        0 <= i < l1.len(),
        0 <= j < l2.len(),
        l1[i].start == l2[j].start,
    ensures
        l2[j].end <= l1[i].end,
{
    let a = l1[i];
    let b = l2[j];
    assert(line_span_ok(gs, a));
    assert(line_span_ok(gs, b));
    if a.end < b.end {
        assert(i < l1.len() - 1);
        let next = l1[i + 1];
        assert(lines_join(gs, a, next));
        if gs[a.end as int].is_newline {
            assert(!gs[a.end as int].is_newline);
        } else {
            assert(wrap_is_forced(gs, size, tracking, wrap, a, next));
            let w = wrap->0;
            let e = word_end(gs, a.end as int);
            lemma_word_end(gs, a.end as int);
            lemma_same_vis_start(gs, a, b);
            let v = a.vis_start as int;
            // b does not end inside the word that starts where a ends.
            if b.end < e {
                assert(j < l2.len() - 1);
                assert(lines_join(gs, b, l2[j + 1]));
                assert(!gs[b.end as int].is_newline);
                assert(!gs[b.end - 1].is_space);
            }
            if b.vis_end < e {
                assert(gs[e - 1].is_space);
            }
            if a.vis_end == a.end {
                assert(!gs[a.vis_end - 1].is_space);
            }
            assert(gs[a.end - 1].is_space);
            assert(v <= a.end - 1 < b.vis_end);
            assert(!single_word(gs, b.vis_start as int, b.vis_end as int));
            lemma_span_monotone(gs, size, tracking, v, e, b.vis_end as int);
            assert(line_fits(gs, size, tracking, wrap, b));
        }
    }
}

proof fn lemma_same_line(
    gs: Seq<Glyph>,
    size: u32,
    tracking: u32,
    wrap: Option<u32>,
    l1: Seq<LineSpan>,
    l2: Seq<LineSpan>,
    k: int,
)
    requires
        breaks_ok(gs, size, tracking, wrap, l1),
        breaks_ok(gs, size, tracking, wrap, l2),
        0 <= k < l1.len(),
        0 <= k < l2.len(),
        l1[k].start == l2[k].start,
    ensures
        l1[k] == l2[k],
        k == l1.len() - 1 <==> k == l2.len() - 1,
        k < l1.len() - 1 ==> l1[k + 1].start == l2[k + 1].start,
{
    lemma_end_not_before(gs, size, tracking, wrap, l1, l2, k, k);
    lemma_end_not_before(gs, size, tracking, wrap, l2, l1, k, k);
    assert(line_span_ok(gs, l1[k]));
    assert(line_span_ok(gs, l2[k]));
    lemma_same_range_same_vis(gs, l1[k], l2[k]);
    if k < l1.len() - 1 {
        assert(lines_join(gs, l1[k], l1[k + 1]));
    }
    if k < l2.len() - 1 {
        assert(lines_join(gs, l2[k], l2[k + 1]));
    }
}

proof fn lemma_lines_agree_from(
    gs: Seq<Glyph>,
    size: u32,
    tracking: u32,
    wrap: Option<u32>,
    l1: Seq<LineSpan>,
    l2: Seq<LineSpan>,
    k: int,
)
    requires
        breaks_ok(gs, size, tracking, wrap, l1),
        breaks_ok(gs, size, tracking, wrap, l2),
        0 <= k < l1.len(),
        0 <= k < l2.len(),
        l1[k].start == l2[k].start,
    ensures
        l1.len() == l2.len(),
        forall|i: int| k <= i < l1.len() ==> l1[i] == l2[i],
    decreases l1.len() - k,
{
    lemma_same_line(gs, size, tracking, wrap, l1, l2, k);
    if k < l1.len() - 1 {
        lemma_lines_agree_from(gs, size, tracking, wrap, l1, l2, k + 1);
    }
}

proof fn lemma_breaks_unique(
    gs: Seq<Glyph>,
    size: u32,
    tracking: u32,
    wrap: Option<u32>,
    l1: Seq<LineSpan>,
    l2: Seq<LineSpan>,
)
    requires
        breaks_ok(gs, size, tracking, wrap, l1),
        breaks_ok(gs, size, tracking, wrap, l2),
    ensures
        l1 == l2,
{
    if gs.len() > 0 {
        lemma_lines_agree_from(gs, size, tracking, wrap, l1, l2, 0);
    }
    assert(l1 =~= l2);
}

/// Laying out the same glyphs at the same size with the same metrics and
/// options always gives the same geometry: the same box, the same lines, and
/// the same glyph placements on each line.
pub proof fn lemma_layout_deterministic(
    gs: Seq<Glyph>,
    size: u32,
    m: FontMetrics,
    opts: TextOptions,
    t1: LaidOutText,
    t2: LaidOutText,
)
    requires
        laid_out_as(gs, size, m, opts, t1),
        laid_out_as(gs, size, m, opts, t2),
    ensures
        t1.width == t2.width,
        t1.height == t2.height,
        t1.lines@.len() == t2.lines@.len(),
        forall|i: int|
            0 <= i < t1.lines@.len() ==> {
                let a = #[trigger] t1.lines@[i];
                let b = t2.lines@[i];
                &&& a.span == b.span
                &&& a.baseline_y == b.baseline_y
                &&& a.ascent == b.ascent
                &&& a.descent == b.descent
                &&& a.width == b.width
                &&& a.glyphs@ == b.glyphs@
            },
{
    let s1 = spans_of(t1.lines@);
    let s2 = spans_of(t2.lines@);
    lemma_breaks_unique(gs, size, opts.tracking, opts.wrap_width, s1, s2);
    let area = match opts.wrap_width {
        Some(w) => w as int,
        None => max_line_width(gs, size, opts, s1),
    };
    assert forall|i: int| 0 <= i < t1.lines@.len() implies {
        let a = #[trigger] t1.lines@[i];
        let b = t2.lines@[i];
        &&& a.span == b.span
        &&& a.baseline_y == b.baseline_y
        &&& a.ascent == b.ascent
        &&& a.descent == b.descent
        &&& a.width == b.width
        &&& a.glyphs@ == b.glyphs@
    } by {
        let a = t1.lines@[i];
        let b = t2.lines@[i];
        assert(s1[i] == a.span);
        assert(s2[i] == b.span);
        assert(line_laid_out(gs, size, m, opts, area, i, a));
        assert(line_laid_out(gs, size, m, opts, area, i, b));
        assert forall|j: int| 0 <= j < a.glyphs@.len() implies a.glyphs@[j] == b.glyphs@[j] by {
            let pa = a.glyphs@[j];
            let pb = b.glyphs@[j];
        }
        assert(a.glyphs@ =~= b.glyphs@);
    }
}

/// Laying out the same glyphs with trimming on and with it off gives the same
/// lines with the same glyphs and baselines; on each line every glyph moves by
/// one same distance, so the glyphs keep their relative positions, and the
/// untrimmed width exceeds the trimmed one by exactly the whitespace at the
/// line's edges. Left aligned, a line without leading whitespace keeps every
/// pen position.
pub proof fn lemma_trim_keeps_layout(
    gs: Seq<Glyph>,
    size: u32,
    m: FontMetrics,
    opts: TextOptions,
    trimmed: LaidOutText,
    kept: LaidOutText,
)
    requires
        laid_out_as(gs, size, m, TextOptions { trim_each_line: true, ..opts }, trimmed),
        laid_out_as(gs, size, m, TextOptions { trim_each_line: false, ..opts }, kept),
    ensures
        trimmed.lines@.len() == kept.lines@.len(),
        forall|i: int|
            0 <= i < trimmed.lines@.len() ==> {
                let a = #[trigger] trimmed.lines@[i];
                let b = kept.lines@[i];
                &&& a.span == b.span
                &&& a.glyphs@.len() == b.glyphs@.len()
                &&& b.width == span_width(
                    gs,
                    size,
                    opts.tracking,
                    a.span.start as int,
                    a.span.vis_start as int,
                ) + a.width + span_width(
                    gs,
                    size,
                    opts.tracking,
                    a.span.vis_end as int,
                    a.span.end as int,
                )
                &&& forall|j: int|
                    0 <= j < a.glyphs@.len() ==> #[trigger] a.glyphs@[j].x - b.glyphs@[j].x
                        == a.glyphs@[0].x - b.glyphs@[0].x
                &&& a.baseline_y == b.baseline_y
                &&& (opts.alignment == TextAlignment::Left && a.span.vis_start == a.span.start)
                    ==> forall|j: int| 0 <= j < a.glyphs@.len() ==> #[trigger] a.glyphs@[j].x == b.glyphs@[j].x
            },
{
    let on = TextOptions { trim_each_line: true, ..opts };
    let off = TextOptions { trim_each_line: false, ..opts };
    let s1 = spans_of(trimmed.lines@);
    let s2 = spans_of(kept.lines@);
    lemma_breaks_unique(gs, size, opts.tracking, opts.wrap_width, s1, s2);
    let area_on = match opts.wrap_width {
        Some(w) => w as int,
        None => max_line_width(gs, size, on, s1),
    };
    let area_off = match opts.wrap_width {
        Some(w) => w as int,
        None => max_line_width(gs, size, off, s2),
    };
    assert forall|i: int| 0 <= i < trimmed.lines@.len() implies {
        let a = #[trigger] trimmed.lines@[i];
        let b = kept.lines@[i];
        &&& a.span == b.span
        &&& a.glyphs@.len() == b.glyphs@.len()
        &&& b.width == span_width(
            gs,
            size,
            opts.tracking,
            a.span.start as int,
            a.span.vis_start as int,
        ) + a.width + span_width(gs, size, opts.tracking, a.span.vis_end as int, a.span.end as int)
        &&& forall|j: int|
            0 <= j < a.glyphs@.len() ==> #[trigger] a.glyphs@[j].x - b.glyphs@[j].x
                == a.glyphs@[0].x - b.glyphs@[0].x
        &&& a.baseline_y == b.baseline_y
        &&& (opts.alignment == TextAlignment::Left && a.span.vis_start == a.span.start)
            ==> forall|j: int| 0 <= j < a.glyphs@.len() ==> #[trigger] a.glyphs@[j].x == b.glyphs@[j].x
    } by {
        let a = trimmed.lines@[i];
        let b = kept.lines@[i];
        assert(s1[i] == a.span);
        assert(s2[i] == b.span);
        assert(line_laid_out(gs, size, m, on, area_on, i, a));
        assert(line_laid_out(gs, size, m, off, area_off, i, b));
        let l = a.span;
        assert(line_span_ok(gs, s1[i]));
        assert forall|j: int| 0 <= j < a.glyphs@.len() implies #[trigger] a.glyphs@[j].x
            - b.glyphs@[j].x == a.glyphs@[0].x - b.glyphs@[0].x by {
            lemma_trim_shifts_line_uniformly(gs, size, opts, area_on, area_off, l, l.start + j, l.start as int);
        }
        lemma_trim_shifts_line_uniformly(gs, size, opts, area_on, area_off, l, l.start as int, l.start as int);
    }
}

} // verus!
