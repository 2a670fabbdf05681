use vstd::prelude::*;

use crate::words::{
    find_longest_word, longest_word, split_longest_word, split_text, WordHyphenator,
};

verus! {

/// The smallest font size that the search tries.
pub const MIN_FONT_SIZE: i64 = 6;

/// The largest font size that the search tries.
pub const MAX_FONT_SIZE: i64 = 300;

/// How many times the auto-fit loop may split a word.
pub const MAX_ITERATIONS: usize = 5;

/// Words of this many characters or fewer are not split.
pub const MIN_WORD_LEN: usize = 6;

/// Why a layout could not be made.
#[derive(Debug, Clone, Copy, PartialEq, Eq, Structural)]
pub enum LayoutError {
    /// No font size that the search tried fits the constraints.
    UnableToFit,
}

/// A layout tried at one font size, by its extent.
#[derive(Debug, Clone, Copy, PartialEq, Eq, Structural)]
pub struct FitCandidate {
    pub font_size: i64,
    pub width: i64,
    pub height: i64,
}

/// Whether a `width` by `height` layout fits the limits; a missing limit is no limit.
pub open spec fn within(width: i64, height: i64, max_width: Option<i64>, max_height: Option<i64>) -> bool {
    &&& max_width matches Some(w) ==> width <= w
    &&& max_height matches Some(h) ==> height <= h
}

/// Whether a `width` by `height` layout fits the limits.
pub fn fits_within(width: i64, height: i64, max_width: Option<i64>, max_height: Option<i64>) -> (r: bool)
    ensures
        r == within(width, height, max_width, max_height),
{
    let w_ok = match max_width {
        Some(w) => width <= w,
        None => true,
    };
    let h_ok = match max_height {
        Some(h) => height <= h,
        None => true,
    };
    w_ok && h_ok
}

/// Where a binary search over `[low, high]` ends, given which sizes fit and the
/// best size found so far: each step tries the middle, goes up where it fits and
/// down where it does not.
pub open spec fn search_outcome(fits: spec_fn(int) -> bool, low: int, high: int, best: Option<int>) -> Option<int>
    decreases high - low + 1,
{
    if low > high {
        best
    } else {
        let mid = (low + high) / 2;
        if fits(mid) {
            search_outcome(fits, mid + 1, high, Some(mid))
        } else {
            search_outcome(fits, low, mid - 1, best)
        }
    }
}

/// Every size in `[lo, hi]` below a fitting one fits too.
pub open spec fn fits_downward(fits: spec_fn(int) -> bool, lo: int, hi: int) -> bool {
    forall|a: int, b: int| lo <= a <= b <= hi && #[trigger] fits(b) ==> #[trigger] fits(a)
}

/// The largest size in `[lo, hi]` that fits, or `None` where none does.
pub open spec fn is_largest_fit(fits: spec_fn(int) -> bool, lo: int, hi: int, r: Option<int>) -> bool {
    match r {
        Some(s) => lo <= s <= hi && fits(s) && forall|t: int| s < t <= hi ==> !#[trigger] fits(t),
        None => forall|t: int| lo <= t <= hi ==> !#[trigger] fits(t),
    }
}

proof fn lemma_search_outcome(fits: spec_fn(int) -> bool, lo: int, hi: int, low: int, high: int, best: Option<int>)
    requires
        fits_downward(fits, lo, hi),
        lo <= low <= high + 1,
        high <= hi,
        forall|t: int| lo <= t < low ==> #[trigger] fits(t),
        forall|t: int| high < t <= hi ==> !#[trigger] fits(t),
        best == (if low == lo { None } else { Some(low - 1) }),
    ensures
        is_largest_fit(fits, lo, hi, search_outcome(fits, low, high, best)),
    decreases high - low + 1,
{
    if low > high {
        if low > lo {
            assert(fits(low - 1));
        }
    } else {
        let mid = (low + high) / 2;
        if fits(mid) {
            assert forall|t: int| lo <= t < mid + 1 implies #[trigger] fits(t) by {
                if t >= low {
                    assert(fits(mid) ==> fits(t));
                }
            }
            lemma_search_outcome(fits, lo, hi, mid + 1, high, Some(mid));
        } else {
            assert forall|t: int| mid - 1 < t <= hi implies !#[trigger] fits(t) by {
                if t <= high {
                    assert(fits(t) ==> fits(mid));
                }
            }
            lemma_search_outcome(fits, lo, hi, low, mid - 1, best);
        }
    }
}

/// Where every size below a fitting one fits too, the search over
/// `[MIN_FONT_SIZE, MAX_FONT_SIZE]` ends at the largest fitting size, or finds
/// none where no size fits.
pub proof fn lemma_search_finds_largest(fits: spec_fn(int) -> bool)
    requires
        fits_downward(fits, MIN_FONT_SIZE as int, MAX_FONT_SIZE as int),
    ensures
        is_largest_fit(
            fits,
            MIN_FONT_SIZE as int,
            MAX_FONT_SIZE as int,
            search_outcome(fits, MIN_FONT_SIZE as int, MAX_FONT_SIZE as int, None),
        ),
{
    lemma_search_outcome(
        fits,
        MIN_FONT_SIZE as int,
        MAX_FONT_SIZE as int,
        MIN_FONT_SIZE as int,
        MAX_FONT_SIZE as int,
        None,
    );
}

/// A binary search for the largest integer font size in
/// `[MIN_FONT_SIZE, MAX_FONT_SIZE]` whose layout fits the limits. The caller lays
/// out the text at each size that `next_size` names and reports its extent.
pub struct FitSearch {
    pub low: i64,
    pub high: i64,
    pub max_width: Option<i64>,
    pub max_height: Option<i64>,
    pub best: Option<FitCandidate>,
}

impl FitSearch {
    /// The bounds stay inside the size range, and the best candidate fits.
    pub open spec fn wf(&self) -> bool {
        &&& MIN_FONT_SIZE <= self.low <= MAX_FONT_SIZE + 1
        &&& MIN_FONT_SIZE - 1 <= self.high <= MAX_FONT_SIZE
        &&& self.best matches Some(c) ==> within(c.width, c.height, self.max_width, self.max_height)
            && MIN_FONT_SIZE <= c.font_size <= MAX_FONT_SIZE
    }

    /// The size of the best candidate so far.
    pub open spec fn best_size(&self) -> Option<int> {
        match self.best {
            Some(c) => Some(c.font_size as int),
            None => None,
        }
    }

    /// Where the search ends from here, given which sizes fit.
    pub open spec fn outcome(&self, fits: spec_fn(int) -> bool) -> Option<int> {
        search_outcome(fits, self.low as int, self.high as int, self.best_size())
    }

    /// The size that the search tries next, or `None` once it is over.
    pub open spec fn spec_next(&self) -> Option<i64> {
        if self.low <= self.high {
            Some(((self.low + self.high) / 2) as i64)
        } else {
            None
        }
    }

    /// A search over the whole size range, with nothing found yet.
    pub fn new(max_width: Option<i64>, max_height: Option<i64>) -> (r: Self)
        ensures
            r.wf(),
            r.low == MIN_FONT_SIZE,
            r.high == MAX_FONT_SIZE,
            r.max_width == max_width,
            r.max_height == max_height,
            r.best is None,
    {
        FitSearch { low: MIN_FONT_SIZE, high: MAX_FONT_SIZE, max_width, max_height, best: None }
    }

    /// The size to lay out next: the middle of the range still open, or `None`
    /// when the range is empty.
    pub fn next_size(&self) -> (r: Option<i64>)
        requires
            self.wf(),
        ensures
            r == self.spec_next(),
    {
        if self.low <= self.high {
            Some((self.low + self.high) / 2)
        } else {
            None
        }
    }

    /// Takes the extent of the layout at the size that `next_size` named. Where it
    /// fits, it becomes the best and the search goes up; else the search goes down.
    pub fn record(&mut self, width: i64, height: i64)
        requires
            old(self).wf(),
            old(self).spec_next() is Some,
        ensures
            final(self).wf(),
            final(self).max_width == old(self).max_width,
            final(self).max_height == old(self).max_height,
            final(self).high - final(self).low < old(self).high - old(self).low,
            forall|fits: spec_fn(int) -> bool|
                fits(old(self).spec_next()->0 as int) == within(
                    width,
                    height,
                    old(self).max_width,
                    old(self).max_height,
                ) ==> #[trigger] final(self).outcome(fits) == old(self).outcome(fits),
            ({
                let mid = old(self).spec_next()->0;
                if within(width, height, old(self).max_width, old(self).max_height) {
                    &&& final(self).best == Some(FitCandidate { font_size: mid, width, height })
                    &&& final(self).low == mid + 1
                    &&& final(self).high == old(self).high
                } else {
                    &&& final(self).best == old(self).best
                    &&& final(self).low == old(self).low
                    &&& final(self).high == mid - 1
                }
            }),
    {
        let mid = (self.low + self.high) / 2;
        if fits_within(width, height, self.max_width, self.max_height) {
            self.best = Some(FitCandidate { font_size: mid, width, height });
            self.low = mid + 1;
        } else {
            self.high = mid - 1;
        }
    }

    /// The largest fitting size found, with its extent, or `UnableToFit` where no
    /// size tried fitted. What it returns fits the limits.
    pub fn finish(&self) -> (r: Result<FitCandidate, LayoutError>)
        requires
            self.wf(),
        ensures
            r matches Ok(c) ==> self.best == Some(c) && within(
                c.width,
                c.height,
                self.max_width,
                self.max_height,
            ),
            r matches Err(e) ==> self.best is None && e == LayoutError::UnableToFit,
            self.spec_next() is None ==> forall|fits: spec_fn(int) -> bool|
                #[trigger] self.outcome(fits) == match r {
                    Ok(c) => Some(c.font_size as int),
                    Err(_) => None,
                },
    {
        match self.best {
            Some(c) => Ok(c),
            None => Err(LayoutError::UnableToFit),
        }
    }
}

/// Whether a layout fills at least half of the box; a box without a finite,
/// positive area counts as filled.
pub open spec fn well_filled(width: i64, height: i64, max_width: Option<i64>, max_height: Option<i64>) -> bool {
    match (max_width, max_height) {
        (Some(w), Some(h)) => w * h > 0 ==> 2 * width * height >= w * h,
        _ => true,
    }
}

/// Whether a layout fills at least half of the box.
pub fn is_well_filled(width: i64, height: i64, max_width: Option<i64>, max_height: Option<i64>) -> (r: bool)
    requires
        0 <= width,
        0 <= height,
    ensures
        r == well_filled(width, height, max_width, max_height),
{
    match (max_width, max_height) {
        (Some(w), Some(h)) => {
            assert(-0x4000_0000_0000_0000_0000_0000_0000_0000 <= w * h <= 0x4000_0000_0000_0000_0000_0000_0000_0000)
                by (nonlinear_arith)
                requires
                    i64::MIN <= w <= i64::MAX,
                    i64::MIN <= h <= i64::MAX,
            ;
            let area = (w as i128) * (h as i128);
            if area > 0 {
                assert(0 <= width * height <= i64::MAX * i64::MAX) by (nonlinear_arith)
                    requires
                        0 <= width <= i64::MAX,
                        0 <= height <= i64::MAX,
                ;
                assert(2 * width * height == 2 * (width * height)) by (nonlinear_arith);
                assert(2 * (i64::MAX * i64::MAX) <= i128::MAX);
                2 * ((width as i128) * (height as i128)) >= area
            } else {
                true
            }
        },
        _ => true,
    }
}

/// One turn of the auto-fit loop after a layout of `width` by `height` at turn
/// `iteration`: `None` to keep that layout, where it fills the box well enough,
/// the turns are used up, the longest word has `MIN_WORD_LEN` characters or fewer,
/// or splitting it changes nothing; else the text with its longest word split.
pub fn next_fit_text(
    iteration: usize,
    width: i64,
    height: i64,
    max_width: Option<i64>,
    max_height: Option<i64>,
    text: &str,
    hyphenator: &WordHyphenator,
) -> (r: Option<String>)
    requires
        0 <= width,
        0 <= height,
    ensures
        ({
            let longest = longest_word(text@);
            let split = split_text(text@, longest, hyphenator.spec_language());
            if well_filled(width, height, max_width, max_height) || iteration >= MAX_ITERATIONS
                || longest.len() <= MIN_WORD_LEN || split == text@ {
                r is None
            } else {
                r matches Some(t) && t@ == split
            }
        }),
{
    if is_well_filled(width, height, max_width, max_height) || iteration >= MAX_ITERATIONS {
        return None;
    }
    let longest = find_longest_word(text);
    if crate::text::chars_of(longest.as_str()).len() <= MIN_WORD_LEN {
        return None;
    }
    let split = split_longest_word(text, longest.as_str(), hyphenator);
    let t = crate::text::chars_of(text);
    let u = crate::text::chars_of(split.as_str());
    if crate::text::same_seq(&u, &t) {
        None
    } else {
        Some(split)
    }
}

} // verus!
