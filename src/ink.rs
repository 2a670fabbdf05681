use vstd::prelude::*;

use crate::layout::{abs, LayoutLine, Point, PositionedGlyph, WritingMode, MAX_ADVANCE, MAX_SEGMENTS};

verus! {

/// The largest magnitude of a baseline coordinate, in layout units.
pub const MAX_COORD: i64 = 0xff_ffff_ffff_ffff;

/// A glyph's ink bounds in font space (Y-up), in layout units, at the font size
/// of the layout.
#[derive(Debug, Clone, Copy, PartialEq, Eq, Structural)]
pub struct GlyphBounds {
    pub x_min: i64,
    pub y_min: i64,
    pub x_max: i64,
    pub y_max: i64,
}

/// A rectangle in the layout plane (Y-down): `min_x..max_x` by `min_y..max_y`.
#[derive(Debug, Clone, Copy, PartialEq, Eq, Structural)]
pub struct InkBox {
    pub min_x: i64,
    pub min_y: i64,
    pub max_x: i64,
    pub max_y: i64,
}

/// A rectangle as the contracts see it: `(min_x, min_y, max_x, max_y)`.
pub type Rect = (int, int, int, int);

impl InkBox {
    pub open spec fn rect(self) -> Rect {
        (self.min_x as int, self.min_y as int, self.max_x as int, self.max_y as int)
    }
}

pub open spec fn min(a: int, b: int) -> int {
    if a <= b {
        a
    } else {
        b
    }
}

pub open spec fn max(a: int, b: int) -> int {
    if a >= b {
        a
    } else {
        b
    }
}

/// `acc` grown to cover the box with corners `(x0, y0)` and `(x1, y1)`.
pub open spec fn grow(acc: Option<Rect>, x0: int, x1: int, y0: int, y1: int) -> Rect {
    let (lx, hx, ly, hy) = (min(x0, x1), max(x0, x1), min(y0, y1), max(y0, y1));
    match acc {
        None => (lx, ly, hx, hy),
        Some(r) => (min(r.0, lx), min(r.1, ly), max(r.2, hx), max(r.3, hy)),
    }
}

/// The pen's x before glyph `j`, starting from `x0`.
pub open spec fn pen_x(gs: Seq<PositionedGlyph>, x0: int, j: nat) -> int
    decreases j,
{
    if j == 0 || j > gs.len() {
        x0
    } else {
        pen_x(gs, x0, (j - 1) as nat) + gs[j - 1].x_advance
    }
}

/// The pen's y before glyph `j`, starting from `y0`; Y-up advances go down the page.
pub open spec fn pen_y(gs: Seq<PositionedGlyph>, y0: int, j: nat) -> int
    decreases j,
{
    if j == 0 || j > gs.len() {
        y0
    } else {
        pen_y(gs, y0, (j - 1) as nat) - gs[j - 1].y_advance
    }
}

/// `acc` grown by the ink of the first `j` glyphs of a line whose pen starts at
/// `(x0, y0)`; a glyph without bounds adds nothing.
pub open spec fn line_ink(
    gs: Seq<PositionedGlyph>,
    bs: Seq<Option<GlyphBounds>>,
    x0: int,
    y0: int,
    j: nat,
    acc: Option<Rect>,
) -> Option<Rect>
    decreases j,
{
    if j == 0 {
        acc
    } else {
        let prev = line_ink(gs, bs, x0, y0, (j - 1) as nat, acc);
        let g = gs[j - 1];
        match bs[j - 1] {
            None => prev,
            Some(b) => {
                let px = pen_x(gs, x0, (j - 1) as nat) + g.x_offset;
                let py = pen_y(gs, y0, (j - 1) as nat) - g.y_offset;
                Some(grow(prev, px + b.x_min, px + b.x_max, py - b.y_max, py - b.y_min))
            },
        }
    }
}

/// The ink of the first `i` lines, or `None` where no glyph among them has bounds.
pub open spec fn lines_ink(lines: Seq<LayoutLine>, bounds: Seq<Vec<Option<GlyphBounds>>>, i: nat) -> Option<Rect>
    decreases i,
{
    if i == 0 {
        None
    } else {
        let l = lines[i - 1];
        line_ink(
            l.glyphs@,
            bounds[i - 1]@,
            l.baseline.x as int,
            l.baseline.y as int,
            l.glyphs@.len(),
            lines_ink(lines, bounds, (i - 1) as nat),
        )
    }
}

/// The glyphs and bounds are within the limits that keep the arithmetic exact.
pub open spec fn ink_inputs_bounded(lines: Seq<LayoutLine>, bounds: Seq<Vec<Option<GlyphBounds>>>) -> bool {
    &&& bounds.len() == lines.len()
    &&& forall|i: int|
        0 <= i < lines.len() ==> {
            &&& #[trigger] lines[i].glyphs@.len() == bounds[i]@.len()
            &&& lines[i].glyphs@.len() <= MAX_SEGMENTS
            &&& abs(lines[i].baseline.x as int) <= MAX_COORD
            &&& abs(lines[i].baseline.y as int) <= MAX_COORD
        }
    &&& forall|i: int, j: int|
        0 <= i < lines.len() && 0 <= j < lines[i].glyphs@.len() ==> glyph_bounded(
            #[trigger] lines[i].glyphs@[j],
        )
    &&& forall|i: int, j: int|
        0 <= i < lines.len() && 0 <= j < bounds[i]@.len() ==> (#[trigger] bounds[i]@[j] matches Some(
            b,
        ) ==> bounds_bounded(b))
}

pub open spec fn glyph_bounded(g: PositionedGlyph) -> bool {
    &&& abs(g.x_advance as int) <= MAX_ADVANCE
    &&& abs(g.y_advance as int) <= MAX_ADVANCE
    &&& abs(g.x_offset as int) <= MAX_ADVANCE
    &&& abs(g.y_offset as int) <= MAX_ADVANCE
}

pub open spec fn bounds_bounded(b: GlyphBounds) -> bool {
    &&& abs(b.x_min as int) <= MAX_ADVANCE
    &&& abs(b.y_min as int) <= MAX_ADVANCE
    &&& abs(b.x_max as int) <= MAX_ADVANCE
    &&& abs(b.y_max as int) <= MAX_ADVANCE
}

/// The limit on any coordinate that the ink pass computes.
pub open spec fn ink_limit() -> int {
    MAX_COORD + MAX_SEGMENTS * MAX_ADVANCE + 3 * MAX_ADVANCE
}

pub open spec fn rect_bounded(r: Option<Rect>) -> bool {
    r matches Some(q) ==> abs(q.0) <= ink_limit() && abs(q.1) <= ink_limit() && abs(q.2) <= ink_limit()
        && abs(q.3) <= ink_limit()
}

proof fn lemma_grow_bounded(acc: Option<Rect>, x0: int, x1: int, y0: int, y1: int)
    requires
        rect_bounded(acc),
        abs(x0) <= ink_limit(),
        abs(x1) <= ink_limit(),
        abs(y0) <= ink_limit(),
        abs(y1) <= ink_limit(),
    ensures
        rect_bounded(Some(grow(acc, x0, x1, y0, y1))),
{
}

proof fn lemma_pen_bounded(gs: Seq<PositionedGlyph>, x0: int, y0: int, j: nat)
    requires
        j <= gs.len(),
        forall|t: int| 0 <= t < gs.len() ==> glyph_bounded(#[trigger] gs[t]),
    ensures
        abs(pen_x(gs, x0, j) - x0) <= j * MAX_ADVANCE,
        abs(pen_y(gs, y0, j) - y0) <= j * MAX_ADVANCE,
    decreases j,
{
    if j > 0 {
        lemma_pen_bounded(gs, x0, y0, (j - 1) as nat);
        assert(glyph_bounded(gs[j - 1]));
        assert((j - 1) * MAX_ADVANCE + MAX_ADVANCE == j * MAX_ADVANCE) by (nonlinear_arith);
    }
}

fn min64(a: i64, b: i64) -> (r: i64)
    ensures
        r == min(a as int, b as int),
{
    if a <= b {
        a
    } else {
        b
    }
}

fn max64(a: i64, b: i64) -> (r: i64)
    ensures
        r == max(a as int, b as int),
{
    if a >= b {
        a
    } else {
        b
    }
}

fn grow_box(acc: Option<InkBox>, x0: i64, x1: i64, y0: i64, y1: i64) -> (r: InkBox)
    ensures
        r.rect() == grow(
            match acc {
                Some(b) => Some(b.rect()),
                None => None,
            },
            x0 as int,
            x1 as int,
            y0 as int,
            y1 as int,
        ),
{
    let (lx, hx, ly, hy) = (min64(x0, x1), max64(x0, x1), min64(y0, y1), max64(y0, y1));
    match acc {
        None => InkBox { min_x: lx, min_y: ly, max_x: hx, max_y: hy },
        Some(b) => InkBox {
            min_x: min64(b.min_x, lx),
            min_y: min64(b.min_y, ly),
            max_x: max64(b.max_x, hx),
            max_y: max64(b.max_y, hy),
        },
    }
}

pub open spec fn opt_rect(b: Option<InkBox>) -> Option<Rect> {
    match b {
        Some(q) => Some(q.rect()),
        None => None,
    }
}

/// The tight box round the ink of all glyphs, each drawn at its pen position:
/// the pen starts at its line's baseline and moves by each glyph's advance. A glyph
/// without bounds moves the pen and adds no ink. `None` where no glyph has bounds.
pub fn ink_bounds(lines: &Vec<LayoutLine>, bounds: &Vec<Vec<Option<GlyphBounds>>>) -> (r: Option<InkBox>)
    requires
        ink_inputs_bounded(lines@, bounds@),
    ensures
        opt_rect(r) == lines_ink(lines@, bounds@, lines@.len()),
        rect_bounded(opt_rect(r)),
{
    let mut acc: Option<InkBox> = None;
    let mut i: usize = 0;
    while i < lines.len()
        invariant
            ink_inputs_bounded(lines@, bounds@),
            i <= lines@.len(),
            opt_rect(acc) == lines_ink(lines@, bounds@, i as nat),
            rect_bounded(opt_rect(acc)),
        decreases lines@.len() - i,
    {
        let line = &lines[i];
        let bs = &bounds[i];
        let ghost gs = line.glyphs@;
        let ghost start = acc;
        assert(gs.len() == bs@.len() && gs.len() <= MAX_SEGMENTS);
        let mut x: i64 = line.baseline.x;
        let mut y: i64 = line.baseline.y;
        let mut j: usize = 0;
        while j < line.glyphs.len()
            invariant
                ink_inputs_bounded(lines@, bounds@),
                i < lines@.len(),
                *line == lines@[i as int],
                *bs == bounds@[i as int],
                gs == line.glyphs@,
                gs.len() == bs@.len(),
                gs.len() <= MAX_SEGMENTS,
                abs(line.baseline.x as int) <= MAX_COORD,
                abs(line.baseline.y as int) <= MAX_COORD,
                j <= gs.len(),
                x == pen_x(gs, line.baseline.x as int, j as nat),
                y == pen_y(gs, line.baseline.y as int, j as nat),
                opt_rect(acc) == line_ink(
                    gs,
                    bs@,
                    line.baseline.x as int,
                    line.baseline.y as int,
                    j as nat,
                    opt_rect(start),
                ),
                rect_bounded(opt_rect(acc)),
            decreases gs.len() - j,
        {
            let g = line.glyphs[j];
            proof {
                assert forall|t: int| 0 <= t < gs.len() implies glyph_bounded(#[trigger] gs[t]) by {
                    assert(glyph_bounded(lines@[i as int].glyphs@[t]));
                }
                lemma_pen_bounded(gs, line.baseline.x as int, line.baseline.y as int, j as nat);
                assert(j * MAX_ADVANCE <= MAX_SEGMENTS * MAX_ADVANCE) by (nonlinear_arith)
                    requires
                        j <= MAX_SEGMENTS,
                ;
                assert(glyph_bounded(g));
            }
            match bs[j] {
                Some(b) => {
                    assert(bounds_bounded(b)) by {
                        assert(bounds@[i as int]@[j as int] matches Some(q) ==> bounds_bounded(q));
                    }
                    let px = x + g.x_offset;
                    let py = y - g.y_offset;
                    proof {
                        lemma_grow_bounded(
                            opt_rect(acc),
                            px + b.x_min,
                            px + b.x_max,
                            py - b.y_max,
                            py - b.y_min,
                        );
                    }
                    let grown = grow_box(acc, px + b.x_min, px + b.x_max, py - b.y_max, py - b.y_min);
                    acc = Some(grown);
                },
                None => {},
            }
            x = x + g.x_advance;
            y = y - g.y_advance;
            j += 1;
        }
        i += 1;
    }
    acc
}

/// Keeps a one-unit pad round the ink.
pub const INK_PAD: i64 = 1;

/// Moves every baseline so that the padded ink box's top-left corner is the
/// origin, and returns the padded box's width and height.
pub fn translate_to_ink(lines: &mut Vec<LayoutLine>, ink: InkBox) -> (r: (i64, i64))
    requires
        abs(ink.min_x as int) <= ink_limit(),
        abs(ink.min_y as int) <= ink_limit(),
        abs(ink.max_x as int) <= ink_limit(),
        abs(ink.max_y as int) <= ink_limit(),
        forall|i: int|
            0 <= i < old(lines)@.len() ==> abs((#[trigger] old(lines)@[i]).baseline.x as int)
                <= MAX_COORD && abs(old(lines)@[i].baseline.y as int) <= MAX_COORD,
    ensures
        final(lines)@.len() == old(lines)@.len(),
        forall|i: int|
            0 <= i < final(lines)@.len() ==> (#[trigger] final(lines)@[i]).spec_view() == old(
                lines,
            )@[i].spec_view() && final(lines)@[i].baseline.x == old(lines)@[i].baseline.x - (
            ink.min_x - INK_PAD) && final(lines)@[i].baseline.y == old(lines)@[i].baseline.y - (
            ink.min_y - INK_PAD),
        r.0 == max(ink.max_x - ink.min_x + 2 * INK_PAD, 0),
        r.1 == max(ink.max_y - ink.min_y + 2 * INK_PAD, 0),
{
    let min_x = ink.min_x - INK_PAD;
    let min_y = ink.min_y - INK_PAD;
    let max_x = ink.max_x + INK_PAD;
    let max_y = ink.max_y + INK_PAD;
    let n = lines.len();
    let ghost before = lines@;
    let mut i: usize = 0;
    while i < n
        invariant
            n == lines@.len(),
            n == before.len(),
            i <= n,
            min_x == ink.min_x - INK_PAD,
            min_y == ink.min_y - INK_PAD,
            abs(ink.min_x as int) <= ink_limit(),
            abs(ink.min_y as int) <= ink_limit(),
            forall|j: int|
                0 <= j < n ==> abs((#[trigger] before[j]).baseline.x as int) <= MAX_COORD && abs(
                    before[j].baseline.y as int,
                ) <= MAX_COORD,
            forall|j: int| 0 <= j < n ==> (#[trigger] lines@[j]).spec_view() == before[j].spec_view(),
            forall|j: int| i <= j < n ==> #[trigger] lines@[j].baseline == before[j].baseline,
            forall|j: int|
                0 <= j < i ==> (#[trigger] lines@[j]).baseline.x == before[j].baseline.x - min_x
                    && lines@[j].baseline.y == before[j].baseline.y - min_y,
        decreases n - i,
    {
        let ghost prev = lines@;
        assert(abs(before[i as int].baseline.x as int) <= MAX_COORD);
        let mut line = lines.remove(i);
        line.baseline = Point { x: line.baseline.x - min_x, y: line.baseline.y - min_y };
        lines.insert(i, line);
        proof {
            assert forall|j: int| 0 <= j < n && j != i implies lines@[j] == prev[j] by {}
        }
        i += 1;
    }
    let w = max_x - min_x;
    let h = max_y - min_y;
    (if w > 0 { w } else { 0 }, if h > 0 { h } else { 0 })
}

/// The largest advance of a line, as its magnitude where `magnitude` holds, over
/// the first `k` lines; 0 for none.
pub open spec fn max_line_advance(lines: Seq<LayoutLine>, k: nat, magnitude: bool) -> int
    decreases k,
{
    if k == 0 {
        0
    } else {
        let a = lines[k - 1].advance as int;
        max(max_line_advance(lines, (k - 1) as nat, magnitude), if magnitude { abs(a) } else { a })
    }
}

/// The extent of the lines from their advances and baselines alone: across the
/// lines, one line height each; along them, the longest line, from the first
/// baseline's y with the descent added.
pub open spec fn coarse_bounds(mode: WritingMode, lines: Seq<LayoutLine>, lh: int, descent: int) -> (int, int) {
    let n = lines.len();
    if n == 0 {
        (0, 0)
    } else if mode == WritingMode::VerticalRl {
        (n * lh, max_line_advance(lines, n, true) + lines[0].baseline.y + descent)
    } else {
        (max_line_advance(lines, n, false), (n - 1) * lh + lines[0].baseline.y + descent)
    }
}

pub open spec fn coarse_inputs_bounded(lines: Seq<LayoutLine>, lh: int, descent: int) -> bool {
    &&& lines.len() <= MAX_SEGMENTS
    &&& 0 <= lh <= MAX_ADVANCE
    &&& abs(descent) <= MAX_ADVANCE
    &&& forall|i: int|
        0 <= i < lines.len() ==> abs((#[trigger] lines[i]).advance as int) <= MAX_SEGMENTS * MAX_ADVANCE
            && abs(lines[i].baseline.y as int) <= MAX_COORD
}

/// The extent of the lines from their advances and baselines alone, for when no
/// glyph has ink bounds.
pub fn compute_bounds(mode: WritingMode, lines: &Vec<LayoutLine>, lh: i64, descent: i64) -> (r: (i64, i64))
    requires
        coarse_inputs_bounded(lines@, lh as int, descent as int),
    ensures
        (r.0 as int, r.1 as int) == coarse_bounds(mode, lines@, lh as int, descent as int),
{
    let n = lines.len();
    if n == 0 {
        return (0, 0);
    }
    let vertical = mode.is_vertical();
    let mut longest: i64 = 0;
    let mut i: usize = 0;
    while i < n
        invariant
            n == lines@.len(),
            coarse_inputs_bounded(lines@, lh as int, descent as int),
            i <= n,
            longest == max_line_advance(lines@, i as nat, vertical),
            0 <= longest <= MAX_SEGMENTS * MAX_ADVANCE,
        decreases n - i,
    {
        let a = lines[i].advance;
        let a = if vertical && a < 0 {
            -a
        } else {
            a
        };
        if a > longest {
            longest = a;
        }
        i += 1;
    }
    proof {
        assert(n * lh <= MAX_SEGMENTS * MAX_ADVANCE) by (nonlinear_arith)
            requires
                n <= MAX_SEGMENTS,
                0 <= lh <= MAX_ADVANCE,
        ;
        assert(0 <= n * lh) by (nonlinear_arith)
            requires
                0 <= n,
                0 <= lh,
        ;
        assert(0 <= (n - 1) * lh <= n * lh) by (nonlinear_arith)
            requires
                1 <= n,
                0 <= lh,
        ;
        assert(abs(lines@[0].baseline.y as int) <= MAX_COORD);
    }
    if vertical {
        ((n as i64) * lh, longest + lines[0].baseline.y + descent)
    } else {
        (longest, ((n - 1) as i64) * lh + lines[0].baseline.y + descent)
    }
}

/// Laid out lines with the extent of their ink and the font size used.
#[derive(Debug)]
pub struct LayoutRun {
    pub lines: Vec<LayoutLine>,
    pub width: i64,
    pub height: i64,
    pub font_size: i64,
}

/// Finishes a layout: where some glyph has ink bounds, the lines are moved so
/// that the padded ink box starts at the origin and the run takes that box's
/// extent; else the lines stay and the run takes their coarse extent.
pub fn finish_run(
    mode: WritingMode,
    lines: Vec<LayoutLine>,
    lh: i64,
    descent: i64,
    font_size: i64,
    bounds: &Vec<Vec<Option<GlyphBounds>>>,
) -> (r: LayoutRun)
    requires
        ink_inputs_bounded(lines@, bounds@),
        coarse_inputs_bounded(lines@, lh as int, descent as int),
    ensures
        r.font_size == font_size,
        r.lines@.len() == lines@.len(),
        forall|i: int| 0 <= i < lines@.len() ==> (#[trigger] r.lines@[i]).spec_view() == lines@[i].spec_view(),
        match lines_ink(lines@, bounds@, lines@.len()) {
            None => {
                &&& (r.width as int, r.height as int) == coarse_bounds(mode, lines@, lh as int, descent as int)
                &&& forall|i: int| 0 <= i < lines@.len() ==> (#[trigger] r.lines@[i]).baseline == lines@[i].baseline
            },
            Some(q) => {
                &&& r.width == max(q.2 - q.0 + 2 * INK_PAD, 0)
                &&& r.height == max(q.3 - q.1 + 2 * INK_PAD, 0)
                &&& forall|i: int|
                    0 <= i < lines@.len() ==> (#[trigger] r.lines@[i]).baseline.x == lines@[i].baseline.x
                        - (q.0 - INK_PAD) && r.lines@[i].baseline.y == lines@[i].baseline.y - (q.1 - INK_PAD)
            },
        },
{
    let mut lines = lines;
    let (w, h) = compute_bounds(mode, &lines, lh, descent);
    match ink_bounds(&lines, bounds) {
        Some(ink) => {
            proof {
                assert forall|i: int| 0 <= i < lines@.len() implies abs((#[trigger] lines@[i]).baseline.x as int)
                    <= MAX_COORD && abs(lines@[i].baseline.y as int) <= MAX_COORD by {
                    assert(lines@[i].glyphs@.len() == bounds@[i]@.len());
                }
            }
            let (w, h) = translate_to_ink(&mut lines, ink);
            LayoutRun { lines, width: w, height: h, font_size }
        },
        None => LayoutRun { lines, width: w, height: h, font_size },
    }
}

} // verus!
