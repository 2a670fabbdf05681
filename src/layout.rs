use vstd::prelude::*;

verus! {

/// The largest magnitude of a segment's advance, in layout units.
pub const MAX_ADVANCE: i64 = 0x7fff_ffff;

/// The largest number of segments that one composition takes.
pub const MAX_SEGMENTS: usize = 0xff_ffff;

/// Writing mode for text layout.
#[derive(Debug, Clone, Copy, PartialEq, Eq, Structural, Default)]
pub enum WritingMode {
    /// Horizontal text, left-to-right, lines flow top-to-bottom.
    #[default]
    Horizontal,
    /// Vertical text, right-to-left columns (traditional CJK).
    VerticalRl,
}

impl WritingMode {
    /// Returns true if the writing mode is vertical.
    pub fn is_vertical(&self) -> (r: bool)
        ensures
            r == (*self == WritingMode::VerticalRl),
    {
        match self {
            WritingMode::VerticalRl => true,
            WritingMode::Horizontal => false,
        }
    }
}

/// A position where a line may break, or must where `is_mandatory` holds.
#[derive(Debug, Clone, Copy, PartialEq, Eq, Structural)]
pub struct LineBreakOpportunity {
    /// Byte offset into the text.
    pub offset: usize,
    /// Whether the line must break here.
    pub is_mandatory: bool,
}

/// A glyph placed by the shaper. Lengths are in layout units; the y advance is
/// Y-up, so that vertical text advances by negative amounts.
#[derive(Debug, Clone, Copy, PartialEq, Eq, Structural)]
pub struct PositionedGlyph {
    pub glyph_id: u32,
    /// Index of the glyph's font: 0 for the primary font, then the fallbacks.
    pub font_index: usize,
    /// Byte offset of the glyph's source in the text (in its segment, as shaped).
    pub cluster: usize,
    pub x_advance: i64,
    pub y_advance: i64,
    pub x_offset: i64,
    pub y_offset: i64,
}

/// The shaper's output for one segment of text.
#[derive(Debug, Clone)]
pub struct ShapedSegment {
    pub glyphs: Vec<PositionedGlyph>,
    pub x_advance: i64,
    pub y_advance: i64,
}

/// The glyphs of one line, the byte range of the text that it covers, its advance
/// along the flow axis and its baseline.
#[derive(Debug)]
pub struct LayoutLine {
    pub glyphs: Vec<PositionedGlyph>,
    pub range: std::ops::Range<usize>,
    pub advance: i64,
    pub baseline: Point,
}

/// A position in layout units, Y-down.
#[derive(Debug, Clone, Copy, PartialEq, Eq, Structural, Default)]
pub struct Point {
    pub x: i64,
    pub y: i64,
}

/// A line as the contracts see it.
pub struct LineView {
    pub glyphs: Seq<PositionedGlyph>,
    pub start: int,
    pub end: int,
    pub advance: int,
}

impl LayoutLine {
    pub open spec fn spec_view(&self) -> LineView {
        LineView {
            glyphs: self.glyphs@,
            start: self.range.start as int,
            end: self.range.end as int,
            advance: self.advance as int,
        }
    }
}

pub open spec fn abs(x: int) -> int {
    if x < 0 {
        -x
    } else {
        x
    }
}

/// The advance of a segment along the flow axis of `mode`.
pub open spec fn flow_advance(mode: WritingMode, seg: ShapedSegment) -> int {
    if mode == WritingMode::VerticalRl {
        seg.y_advance as int
    } else {
        seg.x_advance as int
    }
}

/// Whether adding a segment of advance `seg` to a line of advance `line` goes past
/// `max_extent`; never where there is no limit.
pub open spec fn overflows(line: int, seg: int, max_extent: Option<i64>) -> bool {
    match max_extent {
        None => false,
        Some(m) => abs(line) + abs(seg) > m,
    }
}

/// The opportunities frame the text: they start at 0, never go back, and end at
/// `text_len`, one segment between each two.
pub open spec fn well_framed(text_len: nat, breaks: Seq<LineBreakOpportunity>, segs: Seq<ShapedSegment>) -> bool {
    &&& breaks.len() == segs.len() + 1
    &&& breaks[0].offset == 0
    &&& breaks.last().offset == text_len
    &&& forall|i: int| 0 <= i < segs.len() ==> #[trigger] breaks[i].offset <= breaks[i + 1].offset
}

/// The segments are as a shaper gives them: every cluster lies inside its segment,
/// and advances are bounded.
pub open spec fn well_shaped(breaks: Seq<LineBreakOpportunity>, segs: Seq<ShapedSegment>) -> bool {
    &&& segs.len() <= MAX_SEGMENTS
    &&& forall|i: int| 0 <= i < segs.len() ==> abs(#[trigger] segs[i].x_advance as int) <= MAX_ADVANCE
        && abs(segs[i].y_advance as int) <= MAX_ADVANCE
    &&& forall|i: int, j: int|
        0 <= i < segs.len() && 0 <= j < segs[i].glyphs@.len() ==> #[trigger] segs[i].glyphs@[j].cluster
            < breaks[i + 1].offset - breaks[i].offset
}

/// Where composition stands after some segments: the finished lines, the glyphs
/// of the open line, its advance, and the offset where it starts.
pub struct Composition {
    pub lines: Seq<LineView>,
    pub glyphs: Seq<PositionedGlyph>,
    pub advance: int,
    pub line_start: int,
}

/// A glyph moved from its segment's offsets to the text's.
pub open spec fn shifted(g: PositionedGlyph, by: int) -> PositionedGlyph {
    PositionedGlyph { cluster: (g.cluster + by) as usize, ..g }
}

pub open spec fn shift_all(gs: Seq<PositionedGlyph>, by: int) -> Seq<PositionedGlyph> {
    gs.map_values(|g: PositionedGlyph| shifted(g, by))
}

/// Composition after the first `k` segments: a segment ends the open line before
/// it where the opportunity after it is mandatory, or where it would overflow,
/// and the open line holds a glyph.
pub open spec fn compose_upto(
    mode: WritingMode,
    breaks: Seq<LineBreakOpportunity>,
    segs: Seq<ShapedSegment>,
    max_extent: Option<i64>,
    k: nat,
) -> Composition
    decreases k,
{
    if k == 0 {
        Composition { lines: Seq::empty(), glyphs: Seq::empty(), advance: 0, line_start: 0 }
    } else {
        let st = compose_upto(mode, breaks, segs, max_extent, (k - 1) as nat);
        let a = breaks[k - 1].offset as int;
        let seg = segs[k - 1];
        let adv = flow_advance(mode, seg);
        let cut = st.glyphs.len() > 0 && (breaks[k as int].is_mandatory || overflows(
            st.advance,
            adv,
            max_extent,
        ));
        let open = if cut {
            Composition {
                lines: st.lines.push(
                    LineView { glyphs: st.glyphs, start: st.line_start, end: a, advance: st.advance },
                ),
                glyphs: Seq::empty(),
                advance: 0,
                line_start: a,
            }
        } else {
            st
        };
        Composition {
            lines: open.lines,
            glyphs: open.glyphs + shift_all(seg.glyphs@, a),
            advance: open.advance + adv,
            line_start: open.line_start,
        }
    }
}

/// The lines that composition yields: the finished ones, and the open line where
/// it holds a glyph, running to the end of the text.
pub open spec fn composed_lines(
    mode: WritingMode,
    text_len: nat,
    breaks: Seq<LineBreakOpportunity>,
    segs: Seq<ShapedSegment>,
    max_extent: Option<i64>,
) -> Seq<LineView> {
    let st = compose_upto(mode, breaks, segs, max_extent, segs.len());
    if st.glyphs.len() > 0 {
        st.lines.push(
            LineView { glyphs: st.glyphs, start: st.line_start, end: text_len as int, advance: st.advance },
        )
    } else {
        st.lines
    }
}

/// The origin of the layout plane.
pub open spec fn origin() -> Point {
    Point { x: 0, y: 0 }
}

/// Lines that follow each other without gap or overlap from offset 0, each with
/// its glyphs' clusters inside its range.
pub open spec fn lines_chained(lines: Seq<LineView>) -> bool {
    &&& lines.len() > 0 ==> lines[0].start == 0
    &&& forall|i: int| 0 <= i < lines.len() - 1 ==> #[trigger] lines[i].end == lines[i + 1].start
    &&& forall|i: int| 0 <= i < lines.len() ==> #[trigger] lines[i].start <= lines[i].end
    &&& forall|i: int| 0 <= i < lines.len() ==> (#[trigger] lines[i]).glyphs.len() > 0
    &&& forall|i: int, j: int|
        0 <= i < lines.len() && 0 <= j < lines[i].glyphs.len() ==> lines[i].start
            <= #[trigger] lines[i].glyphs[j].cluster < lines[i].end
}

#[verifier::rlimit(50)]
proof fn lemma_compose_invariant(
    mode: WritingMode,
    text_len: nat,
    breaks: Seq<LineBreakOpportunity>,
    segs: Seq<ShapedSegment>,
    max_extent: Option<i64>,
    k: nat,
)
    requires
        well_framed(text_len, breaks, segs),
        well_shaped(breaks, segs),
        k <= segs.len(),
    ensures
        ({
            let st = compose_upto(mode, breaks, segs, max_extent, k);
            &&& lines_chained(st.lines)
            &&& st.lines.len() > 0 ==> st.lines.last().end == st.line_start
            &&& st.lines.len() == 0 ==> st.line_start == 0
            &&& 0 <= st.line_start <= breaks[k as int].offset
            &&& forall|j: int|
                0 <= j < st.glyphs.len() ==> st.line_start <= #[trigger] st.glyphs[j].cluster
                    < breaks[k as int].offset
            &&& st.lines.len() + (if st.glyphs.len() > 0 { 1int } else { 0 }) <= k
            &&& abs(st.advance) <= k * MAX_ADVANCE
            &&& forall|i: int|
                0 <= i < st.lines.len() ==> abs(#[trigger] st.lines[i].advance) <= MAX_SEGMENTS
                    * MAX_ADVANCE
        }),
    decreases k,
{
    if k > 0 {
        let km = (k - 1) as nat;
        lemma_compose_invariant(mode, text_len, breaks, segs, max_extent, km);
        let st = compose_upto(mode, breaks, segs, max_extent, km);
        let a = breaks[km as int].offset as int;
        let seg = segs[km as int];
        let adv = flow_advance(mode, seg);
        let cut = st.glyphs.len() > 0 && (breaks[k as int].is_mandatory || overflows(
            st.advance,
            adv,
            max_extent,
        ));
        let next = compose_upto(mode, breaks, segs, max_extent, k);
        assert(breaks[km as int].offset <= breaks[k as int].offset);
        assert(well_shaped(breaks, segs));
        assert(abs(segs[km as int].x_advance as int) <= MAX_ADVANCE);
        assert(abs(seg.x_advance as int) <= MAX_ADVANCE && abs(seg.y_advance as int) <= MAX_ADVANCE);
        assert(km * MAX_ADVANCE <= MAX_SEGMENTS * MAX_ADVANCE) by (nonlinear_arith)
            requires
                km <= MAX_SEGMENTS,
        ;
        assert(k * MAX_ADVANCE == km * MAX_ADVANCE + MAX_ADVANCE) by (nonlinear_arith)
            requires
                k == km + 1,
        ;
        let moved = shift_all(seg.glyphs@, a);
        assert forall|j: int| 0 <= j < moved.len() implies a <= #[trigger] moved[j].cluster
            < breaks[k as int].offset by {
            assert(seg.glyphs@[j].cluster < breaks[k as int].offset - breaks[km as int].offset);
        }
        if cut {
            let done = LineView { glyphs: st.glyphs, start: st.line_start, end: a, advance: st.advance };
            assert(next.lines == st.lines.push(done));
            assert forall|i: int, j: int|
                0 <= i < next.lines.len() && 0 <= j < next.lines[i].glyphs.len() implies next.lines[i].start
                <= #[trigger] next.lines[i].glyphs[j].cluster < next.lines[i].end by {
                if i < st.lines.len() {
                    assert(next.lines[i] == st.lines[i]);
                }
            }
            assert forall|i: int| 0 <= i < next.lines.len() implies abs(#[trigger] next.lines[i].advance)
                <= MAX_SEGMENTS * MAX_ADVANCE by {
                if i < st.lines.len() {
                    assert(next.lines[i] == st.lines[i]);
                }
            }
            assert forall|i: int| 0 <= i < next.lines.len() - 1 implies #[trigger] next.lines[i].end
                == next.lines[i + 1].start by {
                if i + 1 < st.lines.len() {
                    assert(next.lines[i] == st.lines[i]);
                    assert(next.lines[i + 1] == st.lines[i + 1]);
                }
            }
            assert(next.glyphs =~= moved);
        } else {
            assert forall|j: int| 0 <= j < next.glyphs.len() implies next.line_start
                <= #[trigger] next.glyphs[j].cluster < breaks[k as int].offset by {
                if j < st.glyphs.len() {
                    assert(next.glyphs[j] == st.glyphs[j]);
                } else {
                    assert(next.glyphs[j] == moved[j - st.glyphs.len()]);
                }
            }
        }
    }
}

/// Every segment that covers some text shapes to at least one glyph.
pub open spec fn text_gives_glyphs(breaks: Seq<LineBreakOpportunity>, segs: Seq<ShapedSegment>) -> bool {
    forall|i: int|
        0 <= i < segs.len() && breaks[i].offset < breaks[i + 1].offset ==> (#[trigger] segs[i]).glyphs@.len()
            > 0
}

proof fn lemma_compose_covers(
    mode: WritingMode,
    text_len: nat,
    breaks: Seq<LineBreakOpportunity>,
    segs: Seq<ShapedSegment>,
    max_extent: Option<i64>,
    k: nat,
)
    requires
        well_framed(text_len, breaks, segs),
        text_gives_glyphs(breaks, segs),
        k <= segs.len(),
    ensures
        ({
            let st = compose_upto(mode, breaks, segs, max_extent, k);
            &&& st.glyphs.len() == 0 && st.lines.len() > 0 ==> st.line_start == breaks[k as int].offset
            &&& breaks[k as int].offset > 0 ==> st.lines.len() > 0 || st.glyphs.len() > 0
        }),
    decreases k,
{
    if k > 0 {
        let km = (k - 1) as nat;
        lemma_compose_covers(mode, text_len, breaks, segs, max_extent, km);
        assert(breaks[km as int].offset <= breaks[k as int].offset);
        let seg = segs[km as int];
        let a = breaks[km as int].offset as int;
        let next = compose_upto(mode, breaks, segs, max_extent, k);
        let moved = shift_all(seg.glyphs@, a);
        assert(moved.len() == seg.glyphs@.len());
        if seg.glyphs@.len() == 0 {
            assert(breaks[km as int].offset == breaks[k as int].offset);
        } else {
            assert(next.glyphs.len() >= moved.len());
        }
    }
}

/// For a non-empty text whose every segment that covers some text shapes to a
/// glyph, the lines partition its bytes: the first starts at 0, each starts where
/// the one before ends, the last ends at the end of the text, no range is empty,
/// and every glyph's cluster lies within its line's range.
pub proof fn lemma_lines_partition_text(
    mode: WritingMode,
    text_len: nat,
    breaks: Seq<LineBreakOpportunity>,
    segs: Seq<ShapedSegment>,
    max_extent: Option<i64>,
)
    requires
        well_framed(text_len, breaks, segs),
        well_shaped(breaks, segs),
        text_len > 0,
        text_gives_glyphs(breaks, segs),
    ensures
        ({
            let lines = composed_lines(mode, text_len, breaks, segs, max_extent);
            &&& lines.len() > 0
            &&& lines_chained(lines)
            &&& lines.last().end == text_len
            &&& forall|i: int| 0 <= i < lines.len() ==> #[trigger] lines[i].start < lines[i].end
        }),
{
    lemma_cluster_within_line(mode, text_len, breaks, segs, max_extent);
    lemma_compose_invariant(mode, text_len, breaks, segs, max_extent, segs.len());
    lemma_compose_covers(mode, text_len, breaks, segs, max_extent, segs.len());
    let lines = composed_lines(mode, text_len, breaks, segs, max_extent);
    assert forall|i: int| 0 <= i < lines.len() implies #[trigger] lines[i].start < lines[i].end by {
        assert(lines[i].glyphs.len() > 0);
        assert(lines[i].start <= lines[i].glyphs[0].cluster < lines[i].end);
    }
}

/// Every glyph's cluster lies within its line's range, and the ranges run in order
/// without gap or overlap from offset 0.
pub proof fn lemma_cluster_within_line(
    mode: WritingMode,
    text_len: nat,
    breaks: Seq<LineBreakOpportunity>,
    segs: Seq<ShapedSegment>,
    max_extent: Option<i64>,
)
    requires
        well_framed(text_len, breaks, segs),
        well_shaped(breaks, segs),
    ensures
        lines_chained(composed_lines(mode, text_len, breaks, segs, max_extent)),
{
    let st = compose_upto(mode, breaks, segs, max_extent, segs.len());
    lemma_compose_invariant(mode, text_len, breaks, segs, max_extent, segs.len());
    let lines = composed_lines(mode, text_len, breaks, segs, max_extent);
    if st.glyphs.len() > 0 {
        let last = LineView { glyphs: st.glyphs, start: st.line_start, end: text_len as int, advance: st.advance };
        assert(lines == st.lines.push(last));
        assert forall|i: int, j: int|
            0 <= i < lines.len() && 0 <= j < lines[i].glyphs.len() implies lines[i].start
            <= #[trigger] lines[i].glyphs[j].cluster < lines[i].end by {
            if i < st.lines.len() {
                assert(lines[i] == st.lines[i]);
            }
        }
        assert forall|i: int| 0 <= i < lines.len() - 1 implies #[trigger] lines[i].end
            == lines[i + 1].start by {
            if i + 1 < st.lines.len() {
                assert(lines[i] == st.lines[i]);
                assert(lines[i + 1] == st.lines[i + 1]);
            }
        }
        assert forall|i: int| 0 <= i < lines.len() implies #[trigger] lines[i].start <= lines[i].end by {
            if i < st.lines.len() {
                assert(lines[i] == st.lines[i]);
            }
        }
    }
}

fn abs_i64(x: i64) -> (r: i64)
    requires
        x > i64::MIN,
    ensures
        r == abs(x as int),
{
    if x < 0 {
        -x
    } else {
        x
    }
}

proof fn lemma_composed_bounds(
    mode: WritingMode,
    text_len: nat,
    breaks: Seq<LineBreakOpportunity>,
    segs: Seq<ShapedSegment>,
    max_extent: Option<i64>,
)
    requires
        well_framed(text_len, breaks, segs),
        well_shaped(breaks, segs),
    ensures
        composed_lines(mode, text_len, breaks, segs, max_extent).len() <= segs.len(),
        forall|i: int|
            0 <= i < composed_lines(mode, text_len, breaks, segs, max_extent).len() ==> abs(
                #[trigger] composed_lines(mode, text_len, breaks, segs, max_extent)[i].advance,
            ) <= MAX_SEGMENTS * MAX_ADVANCE,
{
    let st = compose_upto(mode, breaks, segs, max_extent, segs.len());
    lemma_compose_invariant(mode, text_len, breaks, segs, max_extent, segs.len());
    assert(segs.len() * MAX_ADVANCE <= MAX_SEGMENTS * MAX_ADVANCE) by (nonlinear_arith)
        requires
            segs.len() <= MAX_SEGMENTS,
    ;
    let all = composed_lines(mode, text_len, breaks, segs, max_extent);
    if st.glyphs.len() > 0 {
        let last = LineView { glyphs: st.glyphs, start: st.line_start, end: text_len as int, advance: st.advance };
        assert(all == st.lines.push(last));
        assert forall|i: int| 0 <= i < all.len() implies abs(#[trigger] all[i].advance)
            <= MAX_SEGMENTS * MAX_ADVANCE by {
            if i < st.lines.len() {
                assert(all[i] == st.lines[i]);
            }
        }
    }
}

/// `lines` are the lines that `views` describe, with baselines at the origin.
pub open spec fn lines_match(lines: Seq<LayoutLine>, views: Seq<LineView>) -> bool {
    &&& lines.len() == views.len()
    &&& forall|i: int|
        0 <= i < lines.len() ==> (#[trigger] lines[i]).spec_view() == views[i] && lines[i].baseline
            == origin()
}

proof fn lemma_lines_match_push(lines: Seq<LayoutLine>, views: Seq<LineView>, line: LayoutLine, view: LineView)
    requires
        lines_match(lines, views),
        line.spec_view() == view,
        line.baseline == origin(),
    ensures
        lines_match(lines.push(line), views.push(view)),
{
    assert forall|i: int| 0 <= i < lines.push(line).len() implies (#[trigger] lines.push(line)[i]).spec_view()
        == views.push(view)[i] && lines.push(line)[i].baseline == origin() by {
        if i < lines.len() {
            assert(lines.push(line)[i] == lines[i]);
        }
    }
}

/// Greedily assembles shaped segments into lines. The segment between each two
/// consecutive opportunities joins the open line; before it the open line is
/// finished where the opportunity after it is mandatory or where it would take
/// the line past `max_extent`, unless the open line holds no glyph yet. Glyph
/// clusters are moved to text offsets. Baselines are left at the origin.
pub fn compose_lines(
    mode: WritingMode,
    text_len: usize,
    breaks: &Vec<LineBreakOpportunity>,
    segments: &Vec<ShapedSegment>,
    max_extent: Option<i64>,
) -> (r: Vec<LayoutLine>)
    requires
        well_framed(text_len as nat, breaks@, segments@),
        well_shaped(breaks@, segments@),
    ensures
        lines_match(r@, composed_lines(mode, text_len as nat, breaks@, segments@, max_extent)),
        r@.len() <= segments@.len(),
        forall|i: int| 0 <= i < r@.len() ==> abs((#[trigger] r@[i]).advance as int) <= MAX_SEGMENTS * MAX_ADVANCE,
{
    let ghost segs = segments@;
    let mut lines: Vec<LayoutLine> = Vec::new();
    let mut glyphs: Vec<PositionedGlyph> = Vec::new();
    let mut advance: i64 = 0;
    let mut line_start: usize = 0;
    let mut k: usize = 0;
    while k < segments.len()
        invariant
            segs == segments@,
            well_framed(text_len as nat, breaks@, segs),
            well_shaped(breaks@, segs),
            k <= segs.len(),
            abs(advance as int) <= k * MAX_ADVANCE,
            lines_match(lines@, compose_upto(mode, breaks@, segs, max_extent, k as nat).lines),
            glyphs@ == compose_upto(mode, breaks@, segs, max_extent, k as nat).glyphs,
            advance == compose_upto(mode, breaks@, segs, max_extent, k as nat).advance,
            line_start == compose_upto(mode, breaks@, segs, max_extent, k as nat).line_start,
        decreases segs.len() - k,
    {
        proof {
            assert(k * MAX_ADVANCE <= MAX_SEGMENTS * MAX_ADVANCE) by (nonlinear_arith)
                requires
                    k <= MAX_SEGMENTS,
            ;
            assert((k + 1) * MAX_ADVANCE == k * MAX_ADVANCE + MAX_ADVANCE) by (nonlinear_arith);
        }
        let ghost st = compose_upto(mode, breaks@, segs, max_extent, k as nat);
        let a = breaks[k].offset;
        let seg = &segments[k];
        assert(abs(seg.x_advance as int) <= MAX_ADVANCE && abs(seg.y_advance as int) <= MAX_ADVANCE);
        let adv = if mode.is_vertical() {
            seg.y_advance
        } else {
            seg.x_advance
        };
        let over = match max_extent {
            None => false,
            Some(m) => abs_i64(advance) + abs_i64(adv) > m,
        };
        assert(flow_advance(mode, segs[k as int]) == adv);
        if glyphs.len() > 0 && (breaks[k + 1].is_mandatory || over) {
            let line = LayoutLine {
                glyphs,
                range: std::ops::Range { start: line_start, end: a },
                advance,
                baseline: Point { x: 0, y: 0 },
            };
            proof {
                let done = LineView { glyphs: st.glyphs, start: st.line_start, end: a as int, advance: st.advance };
                lemma_lines_match_push(lines@, st.lines, line, done);
            }
            lines.push(line);
            glyphs = Vec::new();
            advance = 0;
            line_start = a;
        }
        let ghost base = glyphs@;
        let mut j: usize = 0;
        while j < seg.glyphs.len()
            invariant
                segs == segments@,
                k < segs.len(),
                *seg == segs[k as int],
                well_framed(text_len as nat, breaks@, segs),
                well_shaped(breaks@, segs),
                a == breaks@[k as int].offset,
                j <= seg.glyphs@.len(),
                glyphs@ == base + shift_all(seg.glyphs@.subrange(0, j as int), a as int),
            decreases seg.glyphs@.len() - j,
        {
            let g = seg.glyphs[j];
            assert(g.cluster < breaks@[k + 1].offset - breaks@[k as int].offset);
            glyphs.push(PositionedGlyph { cluster: g.cluster + a, ..g });
            j += 1;
            proof {
                assert(glyphs@ =~= base + shift_all(seg.glyphs@.subrange(0, j as int), a as int));
            }
        }
        assert(seg.glyphs@.subrange(0, seg.glyphs@.len() as int) =~= seg.glyphs@);
        advance = advance + adv;
        k += 1;
    }
    let ghost st = compose_upto(mode, breaks@, segs, max_extent, segs.len());
    if glyphs.len() > 0 {
        let line = LayoutLine {
            glyphs,
            range: std::ops::Range { start: line_start, end: text_len },
            advance,
            baseline: Point { x: 0, y: 0 },
        };
        proof {
            let last = LineView { glyphs: st.glyphs, start: st.line_start, end: text_len as int, advance: st.advance };
            lemma_lines_match_push(lines@, st.lines, line, last);
        }
        lines.push(line);
    }
    proof {
        let all = composed_lines(mode, text_len as nat, breaks@, segs, max_extent);
        lemma_composed_bounds(mode, text_len as nat, breaks@, segs, max_extent);
        if st.glyphs.len() > 0 {
            let last = LineView { glyphs: st.glyphs, start: st.line_start, end: text_len as int, advance: st.advance };
            assert(all == st.lines.push(last));
        } else {
            assert(all == st.lines);
        }
        assert(lines_match(lines@, all));
        assert forall|i: int| 0 <= i < lines@.len() implies abs((#[trigger] lines@[i]).advance as int)
            <= MAX_SEGMENTS * MAX_ADVANCE by {
            assert(lines@[i].spec_view() == all[i]);
            assert(abs(all[i].advance) <= MAX_SEGMENTS * MAX_ADVANCE);
        }
    }
    lines
}

/// Font metrics at one size, in layout units: `descent` as the font gives it,
/// negative below the baseline.
#[derive(Debug, Clone, Copy, PartialEq, Eq, Structural)]
pub struct FontMetrics {
    pub ascent: i64,
    pub descent: i64,
    pub leading: i64,
}

pub open spec fn metrics_bounded(m: FontMetrics, font_size: i64) -> bool {
    &&& abs(m.ascent as int) <= MAX_ADVANCE
    &&& abs(m.descent as int) <= MAX_ADVANCE
    &&& abs(m.leading as int) <= MAX_ADVANCE
    &&& 0 <= font_size <= MAX_ADVANCE
}

/// The distance between baselines: ascent, descent and leading, but no less than
/// the font size.
pub open spec fn spec_line_height(m: FontMetrics, font_size: i64) -> int {
    let h = m.ascent - m.descent + m.leading;
    if h >= font_size {
        h
    } else {
        font_size as int
    }
}

/// The distance between baselines: ascent, descent and leading, but no less than
/// the font size.
pub fn line_height(m: FontMetrics, font_size: i64) -> (r: i64)
    requires
        metrics_bounded(m, font_size),
    ensures
        r == spec_line_height(m, font_size),
{
    let h = m.ascent - m.descent + m.leading;
    if h >= font_size {
        h
    } else {
        font_size
    }
}

/// The baseline of line `i` of `n`: lines go down from `ascent` one line height
/// apart; columns go right to left, the first rightmost, each centred on its pitch.
/// The centre is half the line height rounded down to a whole layout unit, so for
/// an odd line height it lies half a unit left of the exact centre; the pitch
/// between columns is exact.
pub open spec fn baseline_at(mode: WritingMode, n: int, i: int, ascent: int, lh: int) -> (int, int) {
    if mode == WritingMode::VerticalRl {
        ((n - 1 - i) * lh + lh / 2, ascent)
    } else {
        (0, ascent + i * lh)
    }
}

/// The baselines of `lines` are those that `baseline_at` gives, all moved by
/// `(-dx, -dy)`.
pub open spec fn placed_and_moved(
    lines: Seq<LayoutLine>,
    mode: WritingMode,
    ascent: int,
    lh: int,
    dx: int,
    dy: int,
) -> bool {
    forall|i: int|
        0 <= i < lines.len() ==> (#[trigger] lines[i]).baseline.x == baseline_at(
            mode,
            lines.len() as int,
            i,
            ascent,
            lh,
        ).0 - dx && lines[i].baseline.y == baseline_at(mode, lines.len() as int, i, ascent, lh).1 - dy
}

/// In Horizontal mode, placed lines, moved by any one offset, share their
/// baseline's x, and each baseline lies one line height below the one before.
pub proof fn lemma_horizontal_baselines(lines: Seq<LayoutLine>, ascent: int, lh: int, dx: int, dy: int)
    requires
        placed_and_moved(lines, WritingMode::Horizontal, ascent, lh, dx, dy),
    ensures
        forall|i: int|
            0 < i < lines.len() ==> (#[trigger] lines[i]).baseline.y - lines[i - 1].baseline.y == lh
                && lines[i].baseline.x == lines[0].baseline.x,
{
    assert forall|i: int| 0 < i < lines.len() implies (#[trigger] lines[i]).baseline.y - lines[i
        - 1].baseline.y == lh && lines[i].baseline.x == lines[0].baseline.x by {
        assert(lines[i - 1].baseline.y == baseline_at(
            WritingMode::Horizontal,
            lines.len() as int,
            i - 1,
            ascent,
            lh,
        ).1 - dy);
        assert(lines[0].baseline.x == baseline_at(WritingMode::Horizontal, lines.len() as int, 0, ascent, lh).0 - dx);
        assert(i * lh - (i - 1) * lh == lh) by (nonlinear_arith);
    }
}

/// In VerticalRl mode, placed columns, moved by any one offset, share their
/// baseline's y, and each baseline lies one line height left of the one before.
pub proof fn lemma_vertical_baselines(lines: Seq<LayoutLine>, ascent: int, lh: int, dx: int, dy: int)
    requires
        placed_and_moved(lines, WritingMode::VerticalRl, ascent, lh, dx, dy),
    ensures
        forall|i: int|
            0 < i < lines.len() ==> lines[i - 1].baseline.x - (#[trigger] lines[i]).baseline.x == lh
                && lines[i].baseline.y == lines[0].baseline.y,
{
    let n = lines.len() as int;
    assert forall|i: int| 0 < i < lines.len() implies lines[i - 1].baseline.x - (
    #[trigger] lines[i]).baseline.x == lh && lines[i].baseline.y == lines[0].baseline.y by {
        assert(lines[i - 1].baseline.x == baseline_at(WritingMode::VerticalRl, n, i - 1, ascent, lh).0 - dx);
        assert(lines[0].baseline.y == baseline_at(WritingMode::VerticalRl, n, 0, ascent, lh).1 - dy);
        assert((n - 1 - (i - 1)) * lh - (n - 1 - i) * lh == lh) by (nonlinear_arith);
    }
}

/// Sets the baseline of each line after its index, as `baseline_at` says; the rest
/// of each line is kept.
pub fn place_baselines(lines: &mut Vec<LayoutLine>, mode: WritingMode, ascent: i64, lh: i64)
    requires
        old(lines).len() <= MAX_SEGMENTS,
        abs(ascent as int) <= MAX_ADVANCE,
        0 <= lh <= MAX_ADVANCE,
    ensures
        final(lines)@.len() == old(lines)@.len(),
        forall|i: int|
            0 <= i < final(lines)@.len() ==> (#[trigger] final(lines)@[i]).spec_view() == old(
                lines,
            )@[i].spec_view() && (final(lines)@[i].baseline.x as int, final(lines)@[i].baseline.y as int)
                == baseline_at(mode, final(lines)@.len() as int, i, ascent as int, lh as int),
        forall|i: int|
            0 <= i < final(lines)@.len() ==> abs((#[trigger] final(lines)@[i]).baseline.x as int)
                <= MAX_SEGMENTS * MAX_ADVANCE + MAX_ADVANCE && abs(final(lines)@[i].baseline.y as int)
                <= MAX_SEGMENTS * MAX_ADVANCE + MAX_ADVANCE,
{
    let n = lines.len();
    let ghost before = lines@;
    let mut i: usize = 0;
    while i < n
        invariant
            n == lines@.len(),
            n == before.len(),
            n <= MAX_SEGMENTS,
            abs(ascent as int) <= MAX_ADVANCE,
            0 <= lh <= MAX_ADVANCE,
            i <= n,
            forall|j: int|
                0 <= j < n ==> (#[trigger] lines@[j]).spec_view() == before[j].spec_view(),
            forall|j: int|
                0 <= j < i ==> ((#[trigger] lines@[j]).baseline.x as int, lines@[j].baseline.y as int)
                    == baseline_at(mode, n as int, j, ascent as int, lh as int),
            forall|j: int|
                0 <= j < i ==> abs((#[trigger] lines@[j]).baseline.x as int) <= MAX_SEGMENTS * MAX_ADVANCE
                    + MAX_ADVANCE && abs(lines@[j].baseline.y as int) <= MAX_SEGMENTS * MAX_ADVANCE
                    + MAX_ADVANCE,
        decreases n - i,
    {
        proof {
            assert(i * lh <= MAX_SEGMENTS * MAX_ADVANCE) by (nonlinear_arith)
                requires
                    i <= MAX_SEGMENTS,
                    0 <= lh <= MAX_ADVANCE,
            ;
            assert((n - 1 - i) * lh <= MAX_SEGMENTS * MAX_ADVANCE) by (nonlinear_arith)
                requires
                    n - 1 - i <= MAX_SEGMENTS,
                    0 <= n - 1 - i,
                    0 <= lh <= MAX_ADVANCE,
            ;
            assert(0 <= (n - 1 - i) * lh) by (nonlinear_arith)
                requires
                    0 <= n - 1 - i,
                    0 <= lh,
            ;
            assert(0 <= i * lh) by (nonlinear_arith)
                requires
                    0 <= i,
                    0 <= lh,
            ;
        }
        let p = if mode.is_vertical() {
            Point { x: ((n - 1 - i) as i64) * lh + lh / 2, y: ascent }
        } else {
            Point { x: 0, y: ascent + (i as i64) * lh }
        };
        let ghost prev = lines@;
        let mut line = lines.remove(i);
        line.baseline = p;
        lines.insert(i, line);
        proof {
            assert forall|j: int| 0 <= j < n implies (#[trigger] lines@[j]).spec_view()
                == before[j].spec_view() by {
                if j != i {
                    assert(lines@[j] == prev[j]);
                }
            }
            assert forall|j: int| 0 <= j < i + 1 implies ((#[trigger] lines@[j]).baseline.x as int,
                lines@[j].baseline.y as int) == baseline_at(mode, n as int, j, ascent as int, lh as int) by {
                if j != i {
                    assert(lines@[j] == prev[j]);
                }
            }
            assert forall|j: int| 0 <= j < i + 1 implies abs((#[trigger] lines@[j]).baseline.x as int)
                <= MAX_SEGMENTS * MAX_ADVANCE + MAX_ADVANCE && abs(lines@[j].baseline.y as int)
                <= MAX_SEGMENTS * MAX_ADVANCE + MAX_ADVANCE by {
                if j != i {
                    assert(lines@[j] == prev[j]);
                }
            }
        }
        i += 1;
    }
}

} // verus!
