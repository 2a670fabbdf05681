use koharu_renderer::fit::{
    fits_within, is_well_filled, next_fit_text, FitCandidate, FitSearch, LayoutError,
    MAX_FONT_SIZE, MIN_FONT_SIZE,
};
use koharu_renderer::ink::{compute_bounds, finish_run, ink_bounds, translate_to_ink, GlyphBounds, InkBox};
use koharu_renderer::layout::{
    compose_lines, line_height, place_baselines, FontMetrics, LayoutLine, LineBreakOpportunity,
    Point, PositionedGlyph, ShapedSegment, WritingMode,
};
use koharu_renderer::words::WordHyphenator;

fn line(advance: i64, baseline: Point) -> LayoutLine {
    LayoutLine { glyphs: Vec::new(), range: 0..0, advance, baseline }
}

fn glyph(cluster: usize, x_advance: i64, y_advance: i64) -> PositionedGlyph {
    PositionedGlyph {
        glyph_id: 1,
        font_index: 0,
        cluster,
        x_advance,
        y_advance,
        x_offset: 0,
        y_offset: 0,
    }
}

fn segment(n_glyphs: usize, x_advance: i64, y_advance: i64) -> ShapedSegment {
    let glyphs = (0..n_glyphs).map(|i| glyph(i, x_advance, y_advance)).collect::<Vec<_>>();
    ShapedSegment {
        glyphs,
        x_advance: x_advance * n_glyphs as i64,
        y_advance: y_advance * n_glyphs as i64,
    }
}

fn opportunity(offset: usize, is_mandatory: bool) -> LineBreakOpportunity {
    LineBreakOpportunity { offset, is_mandatory }
}

/// "A\nB\nC": one segment per line, each break after a line feed mandatory.
fn abc_input(x_advance: i64, y_advance: i64) -> (Vec<LineBreakOpportunity>, Vec<ShapedSegment>) {
    let breaks = vec![
        opportunity(0, false),
        opportunity(2, true),
        opportunity(4, true),
        opportunity(5, true),
    ];
    let segments = vec![
        segment(2, x_advance, y_advance),
        segment(2, x_advance, y_advance),
        segment(1, x_advance, y_advance),
    ];
    (breaks, segments)
}

#[test]
fn compute_bounds_horizontal_uses_max_advance_and_baseline() {
    let lines = vec![
        line(100, Point { x: 0, y: 12 }),
        line(250, Point { x: 0, y: 32 }),
        line(180, Point { x: 0, y: 52 }),
    ];

    let line_height = 20;
    let descent = 5;
    let (w, h) = compute_bounds(WritingMode::Horizontal, &lines, line_height, descent);

    assert_eq!(w, 250);
    // (len-1)*line_height + first_baseline_y + descent
    assert_eq!(h, 2 * line_height + 12 + descent);
}

#[test]
fn compute_bounds_vertical_accounts_for_baseline_and_descent() {
    let lines = vec![
        // Vertical advances are negative in Y-up space; bounds use their magnitude.
        line(-100, Point { x: 0, y: 12 }),
        line(-80, Point { x: -20, y: 12 }),
        line(-90, Point { x: -40, y: 12 }),
    ];

    let line_height = 20;
    let descent = 5;
    let (w, h) = compute_bounds(WritingMode::VerticalRl, &lines, line_height, descent);

    assert_eq!(w, 3 * line_height);
    // max(|advance|) + first_baseline_y + descent
    assert_eq!(h, 100 + 12 + descent);
}

#[test]
fn compute_bounds_of_no_lines_is_empty() {
    assert_eq!(compute_bounds(WritingMode::Horizontal, &Vec::new(), 20, 5), (0, 0));
}

#[test]
fn writing_mode_is_vertical() {
    assert!(WritingMode::VerticalRl.is_vertical());
    assert!(!WritingMode::Horizontal.is_vertical());
    assert_eq!(WritingMode::default(), WritingMode::Horizontal);
}

#[test]
fn mandatory_breaks_make_three_lines() {
    let (breaks, segments) = abc_input(640, 0);
    let lines = compose_lines(WritingMode::Horizontal, 5, &breaks, &segments, None);
    assert_eq!(lines.len(), 3);
    assert_eq!(lines[0].range, 0..2);
    assert_eq!(lines[1].range, 2..4);
    assert_eq!(lines[2].range, 4..5);
    assert_eq!(lines[0].advance, 1280);
    assert_eq!(lines[2].advance, 640);
    // Clusters are text offsets, inside each line's range.
    let clusters: Vec<usize> = lines.iter().flat_map(|l| l.glyphs.iter().map(|g| g.cluster)).collect();
    assert_eq!(clusters, vec![0, 1, 2, 3, 4]);
    for l in &lines {
        for g in &l.glyphs {
            assert!(l.range.contains(&g.cluster));
        }
    }
}

#[test]
fn horizontal_baselines_are_one_line_height_apart() {
    let metrics = FontMetrics { ascent: 12 * 64, descent: -4 * 64, leading: 64 };
    let lh = line_height(metrics, 16 * 64);
    assert_eq!(lh, 17 * 64);
    let (breaks, segments) = abc_input(640, 0);
    let mut lines = compose_lines(WritingMode::Horizontal, 5, &breaks, &segments, None);
    place_baselines(&mut lines, WritingMode::Horizontal, metrics.ascent, lh);
    assert_eq!(lines[0].baseline, Point { x: 0, y: 12 * 64 });
    for i in 1..lines.len() {
        assert_eq!(lines[i].baseline.x, lines[0].baseline.x);
        assert_eq!(lines[i].baseline.y - lines[i - 1].baseline.y, lh);
    }
}

#[test]
fn vertical_columns_go_right_to_left() {
    let metrics = FontMetrics { ascent: 12 * 64, descent: -4 * 64, leading: 0 };
    let lh = line_height(metrics, 16 * 64);
    assert_eq!(lh, 16 * 64);
    let (breaks, segments) = abc_input(0, -640);
    let mut lines = compose_lines(WritingMode::VerticalRl, 5, &breaks, &segments, None);
    assert_eq!(lines.len(), 3);
    place_baselines(&mut lines, WritingMode::VerticalRl, metrics.ascent, lh);
    assert_eq!(lines[0].baseline, Point { x: 2 * lh + lh / 2, y: 12 * 64 });
    for i in 1..lines.len() {
        assert_eq!(lines[i].baseline.y, lines[0].baseline.y);
        assert_eq!(lines[i - 1].baseline.x - lines[i].baseline.x, lh);
    }
}

#[test]
fn line_height_is_at_least_the_font_size() {
    let metrics = FontMetrics { ascent: 5, descent: -2, leading: 1 };
    assert_eq!(line_height(metrics, 16), 16);
    assert_eq!(line_height(metrics, 4), 8);
}

#[test]
fn overflow_starts_a_new_line() {
    // "aa bb cc": three soft breaks, each segment 300 wide.
    let breaks = vec![
        opportunity(0, false),
        opportunity(3, false),
        opportunity(6, false),
        opportunity(8, true),
    ];
    let segments = vec![segment(3, 100, 0), segment(3, 100, 0), segment(2, 150, 0)];
    let lines = compose_lines(WritingMode::Horizontal, 8, &breaks, &segments, Some(650));
    let ranges: Vec<_> = lines.iter().map(|l| l.range.clone()).collect();
    assert_eq!(ranges, vec![0..6, 6..8]);
    // A segment wider than the limit still gets a line of its own.
    let lines = compose_lines(WritingMode::Horizontal, 8, &breaks, &segments, Some(10));
    let ranges: Vec<_> = lines.iter().map(|l| l.range.clone()).collect();
    assert_eq!(ranges, vec![0..3, 3..6, 6..8]);
    // Without a limit only mandatory breaks count: the one at the end of the text
    // ends the line before its segment.
    let lines = compose_lines(WritingMode::Horizontal, 8, &breaks, &segments, None);
    let ranges: Vec<_> = lines.iter().map(|l| l.range.clone()).collect();
    assert_eq!(ranges, vec![0..6, 6..8]);
}

#[test]
fn empty_segments_make_no_empty_lines() {
    let breaks = vec![opportunity(0, false), opportunity(1, true), opportunity(2, true), opportunity(3, true)];
    let segments = vec![segment(1, 10, 0), segment(0, 0, 0), segment(1, 10, 0)];
    let lines = compose_lines(WritingMode::Horizontal, 3, &breaks, &segments, None);
    let ranges: Vec<_> = lines.iter().map(|l| l.range.clone()).collect();
    assert_eq!(ranges, vec![0..1, 1..3]);
    let lines = compose_lines(WritingMode::Horizontal, 0, &vec![opportunity(0, false)], &Vec::new(), None);
    assert!(lines.is_empty());
}

#[test]
fn ink_bounds_follow_the_pen() {
    let mut lines = vec![LayoutLine {
        glyphs: vec![glyph(0, 10, 0), glyph(1, 10, 0), glyph(2, 10, 0)],
        range: 0..3,
        advance: 30,
        baseline: Point { x: 0, y: 20 },
    }];
    let b = GlyphBounds { x_min: 1, y_min: -2, x_max: 8, y_max: 15 };
    let bounds = vec![vec![Some(b), None, Some(b)]];
    let ink = ink_bounds(&lines, &bounds).unwrap();
    assert_eq!(ink, InkBox { min_x: 1, min_y: 5, max_x: 28, max_y: 22 });
    let (w, h) = translate_to_ink(&mut lines, ink);
    assert_eq!((w, h), (29, 19));
    assert_eq!(lines[0].baseline, Point { x: 0, y: 16 });
    assert_eq!(ink_bounds(&lines, &vec![vec![None, None, None]]), None);
}

#[test]
fn finish_run_falls_back_to_coarse_bounds() {
    let lines = vec![LayoutLine {
        glyphs: vec![glyph(0, 10, 0)],
        range: 0..1,
        advance: 10,
        baseline: Point { x: 0, y: 12 },
    }];
    let run = finish_run(WritingMode::Horizontal, lines, 20, 5, 16, &vec![vec![None]]);
    assert_eq!((run.width, run.height, run.font_size), (10, 17, 16));
    assert_eq!(run.lines[0].baseline, Point { x: 0, y: 12 });
}

/// Lays out a single word at `size` as one line `size * 10` wide, `size` high.
fn one_line_extent(size: i64) -> (i64, i64) {
    (size * 10, size)
}

#[test]
fn binary_search_finds_largest_fitting_size() {
    let mut search = FitSearch::new(Some(200), Some(100));
    let mut tried = 0;
    while let Some(size) = search.next_size() {
        assert!((MIN_FONT_SIZE..=MAX_FONT_SIZE).contains(&size));
        let (w, h) = one_line_extent(size);
        search.record(w, h);
        tried += 1;
    }
    assert!(tried <= 9);
    let best = search.finish().unwrap();
    assert_eq!(best, FitCandidate { font_size: 20, width: 200, height: 20 });
    assert!(best.width <= 200 && best.height <= 100);
}

#[test]
fn binary_search_fails_when_nothing_fits() {
    let mut search = FitSearch::new(Some(10), None);
    while let Some(size) = search.next_size() {
        let (w, h) = one_line_extent(size);
        search.record(w, h);
    }
    assert_eq!(search.finish(), Err(LayoutError::UnableToFit));
}

#[test]
fn unlimited_search_takes_largest_size() {
    let mut search = FitSearch::new(None, None);
    while let Some(size) = search.next_size() {
        let (w, h) = one_line_extent(size);
        search.record(w, h);
    }
    assert_eq!(search.finish().unwrap().font_size, MAX_FONT_SIZE);
}

#[test]
fn fit_and_fill_tests() {
    assert!(fits_within(200, 100, Some(200), Some(100)));
    assert!(!fits_within(201, 100, Some(200), Some(100)));
    assert!(fits_within(5000, 5000, None, None));
    assert!(is_well_filled(100, 100, Some(200), Some(100)));
    assert!(!is_well_filled(99, 100, Some(200), Some(100)));
    assert!(is_well_filled(1, 1, None, Some(100)));
}

#[test]
fn auto_fit_splits_long_german_word_once() {
    let hyph = WordHyphenator::new(hyphenation::Language::German1996);
    let text = "Test Persönlichkeitsausscheidung. Ende";
    // A small layout in a large box: the fill ratio is below one half.
    let next = next_fit_text(0, 10, 10, Some(200), Some(100), text, &hyph).unwrap();
    assert_eq!(next.matches("- ").count(), 1);
    assert!(next.starts_with("Test "));
    assert!(next.ends_with(". Ende"));
    assert_eq!(next.replace("- ", ""), text);
    // A well-filled box, the last turn, or short words stop the loop.
    assert_eq!(next_fit_text(0, 150, 80, Some(200), Some(100), text, &hyph), None);
    assert_eq!(next_fit_text(5, 10, 10, Some(200), Some(100), text, &hyph), None);
    assert_eq!(next_fit_text(0, 10, 10, Some(200), Some(100), "Test cat dog", &hyph), None);
}
