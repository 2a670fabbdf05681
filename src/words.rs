use vstd::prelude::*;

use hyphenation::{Hyphenator, Language, Load, Standard};

use crate::text::{append_range, chars_of, is_white, same_chars, string_of, sub_vec, white_space};

verus! {

#[verifier::external_type_specification]
pub struct ExLanguage(hyphenation::Language);

#[verifier::external_type_specification]
#[verifier::external_body]
pub struct ExStandard(hyphenation::Standard);

/// The byte offsets of the breaks that the embedded Knuth-Liang dictionary of
/// `lang` finds in `word`: offsets into `word` itself, except where lowering
/// its case changes a character's byte length, when they are offsets into the
/// lower-cased word.
pub uninterp spec fn pattern_breaks(lang: Language, word: Seq<char>) -> Seq<usize>;

/// Whether the patterns of `lang` are embedded in the hyphenation crate and load.
pub uninterp spec fn has_embedded(lang: Language) -> bool;

/// Relies on hyphenation's `Load::from_embedded` for `Standard`: the dictionary
/// embedded for `lang`, or `None` where it cannot be loaded. Whether it loads
/// depends on `lang` alone, through the resources compiled into the crate.
#[verifier::external_body]
fn load_dictionary(lang: Language) -> (r: Option<Standard>)
    ensures
        r is Some <==> has_embedded(lang),
{
    Standard::from_embedded(lang).ok()
}

/// Relies on hyphenation's `Load::from_embedded` for US English, whose dictionary
/// the crate always embeds, so that loading it does not fail.
#[verifier::external_body]
fn english_dictionary() -> (r: Standard) {
    Standard::from_embedded(Language::EnglishUS).expect("the US English dictionary is embedded")
}

/// A hyphenator for one language, after the Knuth-Liang pattern algorithm.
pub struct WordHyphenator {
    dictionary: Standard,
    language: Language,
}

/// Relies on hyphenation's `Hyphenator::hyphenate` for `Standard`: the byte offsets
/// of the breaks in `word`. `h.dictionary` is always the dictionary of `h.language`
/// (see `WordHyphenator::new`), and the breaks depend on it and the word alone.
#[verifier::external_body]
fn dictionary_breaks(h: &WordHyphenator, word: &str) -> (r: Vec<usize>)
    ensures
        r@ == pattern_breaks(h.language, word@),
{
    h.dictionary.hyphenate(word).breaks
}

/// The number of bytes that `c` takes in UTF-8.
pub open spec fn utf8_width(c: char) -> nat {
    if (c as u32) < 0x80 {
        1
    } else if (c as u32) < 0x800 {
        2
    } else if (c as u32) < 0x10000 {
        3
    } else {
        4
    }
}

/// The byte offset in `w`'s UTF-8 encoding of its character `k`.
pub open spec fn byte_offset(w: Seq<char>, k: nat) -> nat
    decreases k,
{
    if k == 0 || k > w.len() {
        0
    } else {
        byte_offset(w, (k - 1) as nat) + utf8_width(w[k - 1])
    }
}

pub open spec fn breaks_at(breaks: Seq<usize>, b: nat) -> bool {
    exists|i: int| 0 <= i < breaks.len() && breaks[i] as nat == b
}

/// In increasing order, the character positions `0 < j < k` inside `w` whose byte
/// offset is one of `breaks`.
pub open spec fn char_points(w: Seq<char>, breaks: Seq<usize>, k: nat) -> Seq<usize>
    decreases k,
{
    if k <= 1 {
        Seq::empty()
    } else {
        let prev = char_points(w, breaks, (k - 1) as nat);
        let j = (k - 1) as nat;
        if j < w.len() && breaks_at(breaks, byte_offset(w, j)) {
            prev.push(j as usize)
        } else {
            prev
        }
    }
}

/// The split points that the dictionary of `lang` offers in `w`, in characters.
pub open spec fn split_candidates(lang: Language, w: Seq<char>) -> Seq<usize> {
    char_points(w, pattern_breaks(lang, w), w.len())
}

/// The middle character position of `w`, rounded down.
pub open spec fn middle(w: Seq<char>) -> int {
    (w.len() / 2) as int
}

pub open spec fn distance(p: int, target: int) -> nat {
    if p >= target {
        (p - target) as nat
    } else {
        (target - p) as nat
    }
}

/// Among `pts[0..m]`, the first that lies closest to `target`.
pub open spec fn closest(pts: Seq<usize>, target: int, m: nat) -> usize
    decreases m,
{
    if m <= 1 {
        pts[0]
    } else {
        let prev = closest(pts, target, (m - 1) as nat);
        if distance(pts[m - 1] as int, target) < distance(prev as int, target) {
            pts[m - 1]
        } else {
            prev
        }
    }
}

/// Where `w` is split: the candidate closest to the middle, the first on a tie.
pub open spec fn split_point(lang: Language, w: Seq<char>) -> Option<usize> {
    let pts = split_candidates(lang, w);
    if pts.len() == 0 {
        None
    } else {
        Some(closest(pts, middle(w), pts.len()))
    }
}

proof fn lemma_byte_offset_bound(w: Seq<char>, k: nat)
    ensures
        byte_offset(w, k) <= 4 * k,
    decreases k,
{
    if k > 0 && k <= w.len() {
        lemma_byte_offset_bound(w, (k - 1) as nat);
    }
}

proof fn lemma_char_points_range(w: Seq<char>, breaks: Seq<usize>, k: nat)
    requires
        w.len() <= usize::MAX,
    ensures
        forall|i: int|
            0 <= i < char_points(w, breaks, k).len() ==> 0 < #[trigger] char_points(w, breaks, k)[i]
                < w.len() && char_points(w, breaks, k)[i] < k,
    decreases k,
{
    if k > 1 {
        lemma_char_points_range(w, breaks, (k - 1) as nat);
        let j = (k - 1) as nat;
        if j < w.len() && breaks_at(breaks, byte_offset(w, j)) {
            assert(char_points(w, breaks, k) == char_points(w, breaks, j).push(j as usize));
            assert forall|i: int| 0 <= i < char_points(w, breaks, k).len() implies 0
                < #[trigger] char_points(w, breaks, k)[i] < w.len() && char_points(w, breaks, k)[i]
                < k by {
                if i < char_points(w, breaks, j).len() {
                    assert(char_points(w, breaks, k)[i] == char_points(w, breaks, j)[i]);
                }
            }
        }
    }
}

proof fn lemma_closest(pts: Seq<usize>, target: int, m: nat)
    requires
        1 <= m <= pts.len(),
    ensures
        exists|idx: int|
            0 <= idx < m && pts[idx] == closest(pts, target, m) && forall|i: int|
                0 <= i < idx ==> distance(#[trigger] pts[i] as int, target) > distance(
                    closest(pts, target, m) as int,
                    target,
                ),
        forall|i: int|
            0 <= i < m ==> distance(closest(pts, target, m) as int, target) <= distance(
                #[trigger] pts[i] as int,
                target,
            ),
    decreases m,
{
    if m > 1 {
        lemma_closest(pts, target, (m - 1) as nat);
        let prev = closest(pts, target, (m - 1) as nat);
        let c = closest(pts, target, m);
        if distance(pts[m - 1] as int, target) < distance(prev as int, target) {
            assert(pts[m - 1] == c);
            let idx = m - 1;
            assert(forall|i: int|
                0 <= i < idx ==> distance(#[trigger] pts[i] as int, target) > distance(c as int, target));
            assert(0 <= idx < m && pts[idx] == c && forall|i: int|
                0 <= i < idx ==> distance(#[trigger] pts[i] as int, target) > distance(c as int, target));
        } else {
            assert(c == prev);
            let idx = choose|idx: int|
                0 <= idx < m - 1 && pts[idx] == prev && forall|i: int|
                    0 <= i < idx ==> distance(#[trigger] pts[i] as int, target) > distance(
                        prev as int,
                        target,
                    );
            assert(0 <= idx < m && pts[idx] == c && forall|i: int|
                0 <= i < idx ==> distance(#[trigger] pts[i] as int, target) > distance(c as int, target));
        }
    } else {
        let c = closest(pts, target, m);
        assert(pts[0] == c);
        assert(0 <= 0 < m && pts[0] == c && forall|i: int|
            0 <= i < 0 ==> distance(#[trigger] pts[i] as int, target) > distance(c as int, target));
    }
}

/// The split point is the candidate closest to the middle of the word: no other
/// candidate lies closer, and every earlier one lies farther.
pub proof fn lemma_split_point_is_central(lang: Language, w: Seq<char>)
    requires
        w.len() <= usize::MAX,
    ensures
        split_point(lang, w) is None <==> split_candidates(lang, w).len() == 0,
        split_point(lang, w) matches Some(k) ==> {
            &&& 0 < k < w.len()
            &&& exists|idx: int|
                0 <= idx < split_candidates(lang, w).len() && split_candidates(lang, w)[idx] == k
                    && forall|i: int|
                    0 <= i < idx ==> distance(#[trigger] split_candidates(lang, w)[i] as int, middle(w))
                        > distance(k as int, middle(w))
            &&& forall|i: int|
                0 <= i < split_candidates(lang, w).len() ==> distance(k as int, middle(w))
                    <= distance(#[trigger] split_candidates(lang, w)[i] as int, middle(w))
        },
{
    let pts = split_candidates(lang, w);
    if pts.len() > 0 {
        lemma_closest(pts, middle(w), pts.len());
        lemma_char_points_range(w, pattern_breaks(lang, w), w.len());
        let k = closest(pts, middle(w), pts.len());
        let idx = choose|idx: int|
            0 <= idx < pts.len() && pts[idx] == k && forall|i: int|
                0 <= i < idx ==> distance(#[trigger] pts[i] as int, middle(w)) > distance(
                    k as int,
                    middle(w),
                );
        assert(pts[idx] == k);
    }
}

fn has_break(breaks: &Vec<usize>, b: u128) -> (r: bool)
    ensures
        r == breaks_at(breaks@, b as nat),
{
    let mut i: usize = 0;
    while i < breaks.len()
        invariant
            i <= breaks.len(),
            forall|j: int| 0 <= j < i ==> breaks@[j] as nat != b as nat,
        decreases breaks.len() - i,
    {
        if breaks[i] as u128 == b {
            return true;
        }
        i += 1;
    }
    false
}

fn utf8_len(c: char) -> (r: u128)
    ensures
        r as nat == utf8_width(c),
{
    let u = c as u32;
    if u < 0x80 {
        1
    } else if u < 0x800 {
        2
    } else if u < 0x10000 {
        3
    } else {
        4
    }
}

impl WordHyphenator {
    /// The language whose patterns this hyphenator uses.
    pub closed spec fn spec_language(&self) -> Language {
        self.language
    }

    /// A hyphenator for `lang`; where its patterns cannot be loaded, one for US English.
    pub fn new(lang: Language) -> (r: Self)
        ensures
            has_embedded(lang) ==> r.spec_language() == lang,
            !has_embedded(lang) ==> r.spec_language() == Language::EnglishUS,
    {
        match load_dictionary(lang) {
            Some(dictionary) => WordHyphenator { dictionary, language: lang },
            None => WordHyphenator { dictionary: english_dictionary(), language: Language::EnglishUS },
        }
    }

    /// A US English hyphenator.
    pub fn english() -> (r: Self)
        ensures
            r.spec_language() == Language::EnglishUS,
    {
        Self::new(Language::EnglishUS)
    }

    /// The language whose patterns this hyphenator uses.
    pub fn language(&self) -> (r: Language)
        ensures
            r == self.spec_language(),
    {
        self.language
    }

    /// The character positions at which `word` may be split, in increasing order.
    pub fn hyphenation_points(&self, word: &str) -> (r: Vec<usize>)
        ensures
            r@ == split_candidates(self.spec_language(), word@),
    {
        let breaks = dictionary_breaks(self, word);
        let chars = chars_of(word);
        let ghost w = word@;
        let n = chars.len();
        let mut points: Vec<usize> = Vec::new();
        if n < 2 {
            return points;
        }
        let mut offset: u128 = utf8_len(chars[0]);
        let mut j: usize = 1;
        proof {
            assert(byte_offset(w, 0) == 0);
            assert(byte_offset(w, 1) == utf8_width(w[0]));
        }
        while j < n
            invariant
                chars@ == w,
                breaks@ == pattern_breaks(self.language, w),
                n == w.len(),
                1 <= j <= n,
                offset as nat == byte_offset(w, j as nat),
                points@ == char_points(w, breaks@, j as nat),
            decreases n - j,
        {
            proof {
                lemma_byte_offset_bound(w, j as nat);
            }
            if has_break(&breaks, offset) {
                points.push(j);
            }
            offset = offset + utf8_len(chars[j]);
            j += 1;
        }
        points
    }

    /// The split point of `word` closest to its middle, the first on a tie, or
    /// `None` where the dictionary offers none.
    pub fn find_split_point(&self, word: &str) -> (r: Option<usize>)
        ensures
            r == split_point(self.spec_language(), word@),
    {
        let points = self.hyphenation_points(word);
        if points.len() == 0 {
            return None;
        }
        let cs = chars_of(word);
        let target = cs.len() / 2;
        let ghost t = target as int;
        let mut best = points[0];
        let mut i: usize = 1;
        while i < points.len()
            invariant
                1 <= i <= points.len(),
                t == middle(word@),
                t == target as int,
                best == closest(points@, t, i as nat),
            decreases points.len() - i,
        {
            let p = points[i];
            let dp = if p >= target { p - target } else { target - p };
            let db = if best >= target { best - target } else { target - best };
            proof {
                assert(dp as nat == distance(p as int, t));
                assert(db as nat == distance(best as int, t));
                assert(closest(points@, t, (i + 1) as nat) == if distance(points@[i as int] as int, t)
                    < distance(closest(points@, t, i as nat) as int, t) {
                    points@[i as int]
                } else {
                    closest(points@, t, i as nat)
                });
            }
            if dp < db {
                best = p;
            }
            i += 1;
        }
        Some(best)
    }
}

/// Word-boundary punctuation: the characters stripped from either end of a word
/// before it is hyphenated.
pub open spec fn word_punctuation(c: char) -> bool {
    c == '.' || c == ',' || c == '!' || c == '?' || c == ':' || c == ';' || c == '"' || c == '\''
        || c == '(' || c == ')' || c == '[' || c == ']' || c == '{' || c == '}' || c == '\u{AB}'
        || c == '\u{BB}' || c == '\u{201E}' || c == '\u{201C}' || c == '\u{201D}' || c == '\u{2018}'
        || c == '\u{2019}' || c == '\u{2026}' || c == '\u{2013}' || c == '\u{2014}'
}

/// The end of the run of punctuation in `w` that starts at `i`.
pub open spec fn lead_end(w: Seq<char>, i: nat) -> nat
    decreases w.len() - i,
{
    if i < w.len() && word_punctuation(w[i as int]) {
        lead_end(w, i + 1)
    } else {
        i
    }
}

/// The start of the run of punctuation in `w` that ends at `j`.
pub open spec fn trail_start(w: Seq<char>, j: nat) -> nat
    decreases j,
{
    if 0 < j <= w.len() && word_punctuation(w[j - 1]) {
        trail_start(w, (j - 1) as nat)
    } else {
        j
    }
}

/// `(prefix, clean, suffix)` of a word: its leading punctuation, its core and its
/// trailing punctuation; a word of punctuation alone is all prefix.
pub open spec fn stripped(w: Seq<char>) -> (Seq<char>, Seq<char>, Seq<char>) {
    let start = lead_end(w, 0);
    if start >= w.len() {
        (w, Seq::empty(), Seq::empty())
    } else {
        let end = trail_start(w, w.len());
        (w.subrange(0, start as int), w.subrange(start as int, end as int), w.subrange(end as int, w.len() as int))
    }
}

proof fn lemma_lead_end(w: Seq<char>, i: nat)
    requires
        i <= w.len(),
    ensures
        i <= lead_end(w, i) <= w.len(),
        forall|k: int| i <= k < lead_end(w, i) ==> word_punctuation(w[k]),
        lead_end(w, i) < w.len() ==> !word_punctuation(w[lead_end(w, i) as int]),
    decreases w.len() - i,
{
    if i < w.len() && word_punctuation(w[i as int]) {
        lemma_lead_end(w, i + 1);
    }
}

proof fn lemma_trail_start(w: Seq<char>, j: nat, floor: nat)
    requires
        j <= w.len(),
        floor < j,
        !word_punctuation(w[floor as int]),
    ensures
        floor < trail_start(w, j) <= j,
        forall|k: int| trail_start(w, j) <= k < j ==> word_punctuation(w[k]),
        !word_punctuation(w[trail_start(w, j) - 1]),
    decreases j,
{
    if 0 < j <= w.len() && word_punctuation(w[j - 1]) {
        lemma_trail_start(w, (j - 1) as nat, floor);
    }
}

/// Stripping loses nothing: `prefix + clean + suffix` is the word again, the prefix
/// and suffix are punctuation, and the clean part neither starts nor ends with it.
pub proof fn lemma_strip_round_trip(w: Seq<char>)
    ensures
        stripped(w).0 + stripped(w).1 + stripped(w).2 == w,
        forall|k: int| 0 <= k < stripped(w).0.len() ==> word_punctuation(#[trigger] stripped(w).0[k]),
        forall|k: int| 0 <= k < stripped(w).2.len() ==> word_punctuation(#[trigger] stripped(w).2[k]),
        stripped(w).1.len() > 0 ==> !word_punctuation(stripped(w).1[0]) && !word_punctuation(
            stripped(w).1.last(),
        ),
        stripped(w).1.len() == 0 ==> stripped(w).0 == w,
{
    lemma_lead_end(w, 0);
    let start = lead_end(w, 0);
    if start < w.len() {
        lemma_trail_start(w, w.len(), start);
        let end = trail_start(w, w.len());
        assert(w.subrange(0, start as int) + w.subrange(start as int, end as int) + w.subrange(
            end as int,
            w.len() as int,
        ) =~= w);
    }
}

/// Whether `c` is word-boundary punctuation.
pub fn is_word_punctuation(c: char) -> (r: bool)
    ensures
        r == word_punctuation(c),
{
    c == '.' || c == ',' || c == '!' || c == '?' || c == ':' || c == ';' || c == '"' || c == '\''
        || c == '(' || c == ')' || c == '[' || c == ']' || c == '{' || c == '}' || c == '\u{AB}'
        || c == '\u{BB}' || c == '\u{201E}' || c == '\u{201C}' || c == '\u{201D}' || c == '\u{2018}'
        || c == '\u{2019}' || c == '\u{2026}' || c == '\u{2013}' || c == '\u{2014}'
}

/// Splits a word into its leading punctuation, its core and its trailing punctuation.
pub fn strip_punctuation(word: &str) -> (r: (String, String, String))
    ensures
        r.0@ == stripped(word@).0,
        r.1@ == stripped(word@).1,
        r.2@ == stripped(word@).2,
{
    let chars = chars_of(word);
    let ghost w = word@;
    let len = chars.len();
    let mut start: usize = 0;
    while start < len && is_word_punctuation(chars[start])
        invariant
            chars@ == w,
            len == w.len(),
            start <= len,
            lead_end(w, start as nat) == lead_end(w, 0),
        decreases len - start,
    {
        start += 1;
    }
    if start >= len {
        return (string_of(chars.as_slice()), String::new(), String::new());
    }
    let mut end: usize = len;
    while end > 0 && is_word_punctuation(chars[end - 1])
        invariant
            chars@ == w,
            len == w.len(),
            end <= len,
            trail_start(w, end as nat) == trail_start(w, len as nat),
        decreases end,
    {
        end -= 1;
    }
    proof {
        lemma_lead_end(w, 0);
        lemma_trail_start(w, len as nat, start as nat);
    }
    let prefix = sub_vec(&chars, 0, start);
    let clean = sub_vec(&chars, start, end);
    let suffix = sub_vec(&chars, end, len);
    (string_of(prefix.as_slice()), string_of(clean.as_slice()), string_of(suffix.as_slice()))
}

/// `t[a..b]` is a word: a maximal run of characters that are not white space.
pub open spec fn is_word_span(t: Seq<char>, a: int, b: int) -> bool {
    &&& 0 <= a < b <= t.len()
    &&& forall|i: int| a <= i < b ==> !white_space(#[trigger] t[i])
    &&& a == 0 || white_space(t[a - 1])
    &&& b == t.len() || white_space(t[b])
}

/// `t[a..b]` is the first of the words of `t` with the most characters.
pub open spec fn is_longest_span(t: Seq<char>, a: int, b: int) -> bool {
    &&& is_word_span(t, a, b)
    &&& forall|c: int, d: int| #[trigger]
        is_word_span(t, c, d) ==> d - c <= b - a && (c < a ==> d - c < b - a)
}

proof fn lemma_word_end_unique(t: Seq<char>, a: int, b: int, d: int)
    requires
        is_word_span(t, a, b),
        is_word_span(t, a, d),
    ensures
        b == d,
{
    if b < d {
        assert(!white_space(t[b]));
    } else if d < b {
        assert(!white_space(t[d]));
    }
}

/// The first longest word of `t` as a span, or `None` where `t` has no word.
fn longest_span(t: &Vec<char>) -> (r: Option<(usize, usize)>)
    ensures
        r matches Some((a, b)) ==> is_longest_span(t@, a as int, b as int),
        r is None ==> forall|i: int| 0 <= i < t@.len() ==> white_space(#[trigger] t@[i]),
{
    let n = t.len();
    let mut best: Option<(usize, usize)> = None;
    let mut i: usize = 0;
    while i < n
        invariant
            n == t@.len(),
            i <= n,
            i == 0 || i == n || white_space(t@[i - 1]) || white_space(t@[i as int]),
            best is None ==> forall|k: int| 0 <= k < i ==> white_space(#[trigger] t@[k]),
            best matches Some((a, b)) ==> {
                &&& is_word_span(t@, a as int, b as int)
                &&& b <= i
                &&& forall|c: int, d: int| #[trigger]
                    is_word_span(t@, c, d) && c < i ==> d - c <= b - a && (c < a ==> d - c < b
                        - a)
            },
        decreases n - i,
    {
        if is_white(t[i]) {
            proof {
                if let Some((a, b)) = best {
                    assert forall|c: int, d: int| #[trigger]
                        is_word_span(t@, c, d) && c < i + 1 implies d - c <= b - a && (c < a ==> d
                        - c < b - a) by {
                        if c == i {
                            assert(!white_space(t@[c]));
                        }
                        if c < i && i < d {
                            assert(!white_space(t@[i as int]));
                        }
                    }
                }
            }
            i += 1;
        } else {
            let start = i;
            while i < n && !is_white(t[i])
                invariant
                    n == t@.len(),
                    start <= i <= n,
                    forall|k: int| start <= k < i ==> !white_space(#[trigger] t@[k]),
                decreases n - i,
            {
                i += 1;
            }
            proof {
                assert(start == 0 || white_space(t@[start - 1])) by {
                    if start > 0 && !white_space(t@[start - 1]) {
                        assert(white_space(t@[start as int]));
                    }
                };
                assert(is_word_span(t@, start as int, i as int));
            }
            let better = match best {
                None => true,
                Some((a, b)) => i - start > b - a,
            };
            proof {
                assert forall|c: int, d: int|
                    is_word_span(t@, c, d) && start <= c < i implies c == start && d == i as int by {
                    if start < c {
                        assert(!white_space(t@[c - 1]));
                    }
                    lemma_word_end_unique(t@, start as int, i as int, d);
                }
                if best is None {
                    assert forall|c: int, d: int|
                        is_word_span(t@, c, d) && c < start implies false by {
                        assert(white_space(t@[c]));
                    }
                }
            }
            if better {
                best = Some((start, i));
            }
        }
    }
    best
}

/// The first of the words of `t` with the most characters; empty where `t` has no word.
pub open spec fn longest_word(t: Seq<char>) -> Seq<char> {
    if exists|a: int, b: int| is_longest_span(t, a, b) {
        let (a, b) = choose|a: int, b: int| is_longest_span(t, a, b);
        t.subrange(a, b)
    } else {
        Seq::empty()
    }
}

proof fn lemma_longest_span_unique(t: Seq<char>, a: int, b: int, c: int, d: int)
    requires
        is_longest_span(t, a, b),
        is_longest_span(t, c, d),
    ensures
        a == c && b == d,
{
    assert(is_word_span(t, c, d));
    assert(is_word_span(t, a, b));
    if a < c || c < a {
        assert(false);
    }
    lemma_word_end_unique(t, a, b, d);
}

/// The first of the words of `text` with the most characters, or the empty string
/// where `text` has no word.
pub fn find_longest_word(text: &str) -> (r: String)
    ensures
        r@ == longest_word(text@),
        r@.len() == 0 ==> forall|i: int| 0 <= i < text@.len() ==> white_space(#[trigger] text@[i]),
{
    let t = chars_of(text);
    match longest_span(&t) {
        Some((a, b)) => {
            let w = sub_vec(&t, a, b);
            proof {
                assert(is_longest_span(t@, a as int, b as int));
                let (c, d) = choose|c: int, d: int| is_longest_span(t@, c, d);
                lemma_longest_span_unique(t@, a as int, b as int, c, d);
                assert(longest_word(t@) == t@.subrange(c, d));
            }
            string_of(w.as_slice())
        },
        None => {
            proof {
                assert forall|a: int, b: int| !is_longest_span(t@, a, b) by {
                    if is_longest_span(t@, a, b) {
                        assert(white_space(t@[a]));
                    }
                }
            }
            String::new()
        },
    }
}

/// `w` occurs in `t` at `i`.
pub open spec fn occurs_at(t: Seq<char>, w: Seq<char>, i: int) -> bool {
    0 <= i && i + w.len() <= t.len() && t.subrange(i, i + w.len()) == w
}

/// `w` occurs in `t` at `i` and nowhere before.
pub open spec fn first_occurrence_at(t: Seq<char>, w: Seq<char>, i: int) -> bool {
    occurs_at(t, w, i) && forall|j: int| 0 <= j < i ==> !#[trigger] occurs_at(t, w, j)
}

/// `t` with its first occurrence of `w` replaced by `r`; `t` itself where `w` does
/// not occur.
pub open spec fn replace_first(t: Seq<char>, w: Seq<char>, r: Seq<char>) -> Seq<char> {
    if exists|i: int| occurs_at(t, w, i) {
        let i = choose|i: int| first_occurrence_at(t, w, i);
        t.subrange(0, i) + r + t.subrange(i + w.len(), t.len() as int)
    } else {
        t
    }
}

/// What replaces `w` when it is split for `lang`: its leading punctuation, the
/// head of its core, a hyphen and a space, the tail, and its trailing punctuation.
/// `None` where the core is shorter than two characters or offers no split point.
pub open spec fn split_replacement(w: Seq<char>, lang: Language) -> Option<Seq<char>> {
    let (p, c, s) = stripped(w);
    if c.len() < 2 {
        None
    } else {
        match split_point(lang, c) {
            None => None,
            Some(k) => if 0 < k < c.len() {
                Some(p + c.subrange(0, k as int) + seq!['-', ' '] + c.subrange(k as int, c.len() as int) + s)
            } else {
                None
            },
        }
    }
}

/// `t` with its first occurrence of `w` split for `lang`; `t` itself where `w` is
/// empty, cannot be split, or does not occur.
pub open spec fn split_text(t: Seq<char>, w: Seq<char>, lang: Language) -> Seq<char> {
    if w.len() == 0 {
        t
    } else {
        match split_replacement(w, lang) {
            None => t,
            Some(r) => replace_first(t, w, r),
        }
    }
}

/// Where the core of `w` offers no split point, splitting it leaves any text as it was.
pub proof fn lemma_unsplittable_word_keeps_text(t: Seq<char>, w: Seq<char>, lang: Language)
    requires
        split_point(lang, stripped(w).1) is None,
    ensures
        split_text(t, w, lang) == t,
{
}

fn occurs_at_exec(t: &Vec<char>, w: &Vec<char>, i: usize) -> (r: bool)
    requires
        i + w.len() <= t.len(),
    ensures
        r == occurs_at(t@, w@, i as int),
{
    let mut k: usize = 0;
    while k < w.len()
        invariant
            i + w.len() <= t.len(),
            k <= w.len(),
            forall|j: int| 0 <= j < k ==> t@[i + j] == w@[j],
        decreases w.len() - k,
    {
        if t[i + k] != w[k] {
            assert(t@.subrange(i as int, i + w.len())[k as int] != w@[k as int]);
            return false;
        }
        k += 1;
    }
    assert(t@.subrange(i as int, i + w.len()) =~= w@);
    true
}

/// `t` with its first occurrence of `w` replaced by `r`.
fn replace_first_exec(t: &Vec<char>, w: &Vec<char>, r: &Vec<char>) -> (out: Vec<char>)
    requires
        w.len() > 0,
    ensures
        out@ == replace_first(t@, w@, r@),
{
    let n = t.len();
    if w.len() > n {
        assert(!exists|i: int| occurs_at(t@, w@, i));
        return sub_vec(t, 0, n);
    }
    let mut i: usize = 0;
    while i <= n - w.len()
        invariant
            n == t.len(),
            0 < w.len() <= n,
            i <= n - w.len() + 1,
            forall|j: int| 0 <= j < i ==> !#[trigger] occurs_at(t@, w@, j),
        decreases n - w.len() + 1 - i,
    {
        if occurs_at_exec(t, w, i) {
            proof {
                assert(first_occurrence_at(t@, w@, i as int));
                let c = choose|c: int| first_occurrence_at(t@, w@, c);
                if c < i {
                    assert(!occurs_at(t@, w@, c));
                } else if c > i {
                    assert(!occurs_at(t@, w@, i as int));
                }
            }
            let mut out = sub_vec(t, 0, i);
            append_range(&mut out, r, 0, r.len());
            append_range(&mut out, t, i + w.len(), n);
            assert(r@.subrange(0, r@.len() as int) =~= r@);
            return out;
        }
        i += 1;
    }
    assert forall|j: int| !occurs_at(t@, w@, j) by {
        if 0 <= j < i {
        }
    }
    let out = sub_vec(t, 0, n);
    assert(out@ =~= t@);
    out
}

/// `text` with the first occurrence of `word` split at the hyphenation point of its
/// core closest to the middle, written as `head- tail` with its punctuation kept.
/// The text comes back unchanged where `word` is empty, has no split point, or does
/// not occur.
pub fn split_longest_word(text: &str, word: &str, hyphenator: &WordHyphenator) -> (r: String)
    ensures
        r@ == split_text(text@, word@, hyphenator.spec_language()),
{
    let t = chars_of(text);
    if word.is_empty() {
        return string_of(t.as_slice());
    }
    let (prefix, clean, suffix) = strip_punctuation(word);
    let c = chars_of(clean.as_str());
    if c.len() < 2 {
        return string_of(t.as_slice());
    }
    let k = match hyphenator.find_split_point(clean.as_str()) {
        Some(k) => k,
        None => {
            return string_of(t.as_slice());
        },
    };
    if k == 0 || k >= c.len() {
        return string_of(t.as_slice());
    }
    let mut replacement = chars_of(prefix.as_str());
    append_range(&mut replacement, &c, 0, k);
    replacement.push('-');
    replacement.push(' ');
    append_range(&mut replacement, &c, k, c.len());
    let s = chars_of(suffix.as_str());
    append_range(&mut replacement, &s, 0, s.len());
    proof {
        assert(s@.subrange(0, s@.len() as int) =~= s@);
        assert(replacement@ =~= prefix@ + c@.subrange(0, k as int) + seq!['-', ' '] + c@.subrange(
            k as int,
            c@.len() as int,
        ) + suffix@);
    }
    let out = replace_first_exec(&t, &chars_of(word), &replacement);
    string_of(out.as_slice())
}

/// The language that a lower-case code or name stands for: BCP 47 style codes
/// (`de`, `en-gb`) and English names (`german`, `english-uk`).
pub open spec fn language_of_code(s: Seq<char>) -> Option<Language> {
    if s == "de"@ || s == "de-de"@ || s == "german"@ {
        Some(Language::German1996)
    } else if s == "de-1901"@ || s == "german-1901"@ {
        Some(Language::German1901)
    } else if s == "de-ch"@ || s == "german-swiss"@ {
        Some(Language::GermanSwiss)
    } else if s == "en"@ || s == "en-us"@ || s == "english"@ || s == "english-us"@ {
        Some(Language::EnglishUS)
    } else if s == "en-gb"@ || s == "english-gb"@ || s == "english-uk"@ {
        Some(Language::EnglishGB)
    } else if s == "fr"@ || s == "fr-fr"@ || s == "french"@ {
        Some(Language::French)
    } else if s == "es"@ || s == "es-es"@ || s == "spanish"@ {
        Some(Language::Spanish)
    } else if s == "it"@ || s == "it-it"@ || s == "italian"@ {
        Some(Language::Italian)
    } else if s == "pt"@ || s == "pt-pt"@ || s == "pt-br"@ || s == "portuguese"@ {
        Some(Language::Portuguese)
    } else if s == "nl"@ || s == "nl-nl"@ || s == "dutch"@ {
        Some(Language::Dutch)
    } else if s == "pl"@ || s == "pl-pl"@ || s == "polish"@ {
        Some(Language::Polish)
    } else if s == "ru"@ || s == "ru-ru"@ || s == "russian"@ {
        Some(Language::Russian)
    } else if s == "sv"@ || s == "sv-se"@ || s == "swedish"@ {
        Some(Language::Swedish)
    } else if s == "da"@ || s == "da-dk"@ || s == "danish"@ {
        Some(Language::Danish)
    } else if s == "fi"@ || s == "fi-fi"@ || s == "finnish"@ {
        Some(Language::Finnish)
    } else if s == "cs"@ || s == "cs-cz"@ || s == "czech"@ {
        Some(Language::Czech)
    } else if s == "hu"@ || s == "hu-hu"@ || s == "hungarian"@ {
        Some(Language::Hungarian)
    } else if s == "tr"@ || s == "tr-tr"@ || s == "turkish"@ {
        Some(Language::Turkish)
    } else if s == "el"@ || s == "el-gr"@ || s == "greek"@ {
        Some(Language::GreekMono)
    } else if s == "uk"@ || s == "uk-ua"@ || s == "ukrainian"@ {
        Some(Language::Ukrainian)
    } else if s == "hr"@ || s == "hr-hr"@ || s == "croatian"@ {
        Some(Language::Croatian)
    } else if s == "ro"@ || s == "ro-ro"@ || s == "romanian"@ {
        Some(Language::Romanian)
    } else if s == "sk"@ || s == "sk-sk"@ || s == "slovak"@ {
        Some(Language::Slovak)
    } else if s == "sl"@ || s == "sl-si"@ || s == "slovenian"@ {
        Some(Language::Slovenian)
    } else if s == "bg"@ || s == "bg-bg"@ || s == "bulgarian"@ {
        Some(Language::Bulgarian)
    } else if s == "ca"@ || s == "ca-es"@ || s == "catalan"@ {
        Some(Language::Catalan)
    } else if s == "et"@ || s == "et-ee"@ || s == "estonian"@ {
        Some(Language::Estonian)
    } else if s == "lv"@ || s == "lv-lv"@ || s == "latvian"@ {
        Some(Language::Latvian)
    } else if s == "lt"@ || s == "lt-lt"@ || s == "lithuanian"@ {
        Some(Language::Lithuanian)
    } else if s == "id"@ || s == "id-id"@ || s == "indonesian"@ {
        Some(Language::Indonesian)
    } else if s == "la"@ || s == "latin"@ {
        Some(Language::Latin)
    } else {
        None
    }
}

/// What `str::to_lowercase` makes of a string.
pub uninterp spec fn lower_of(s: Seq<char>) -> Seq<char>;

/// Relies on `str::to_lowercase`: the lower-case form of `s`, which depends on its
/// characters alone.
#[verifier::external_body]
fn lowercase(s: &str) -> (r: String)
    ensures
        r@ == lower_of(s@),
{
    s.to_lowercase()
}

/// The language that a lower-case code or name stands for, or `None`.
pub fn language_for_code(code: &str) -> (r: Option<Language>)
    ensures
        r == language_of_code(code@),
{
    let c = chars_of(code);
    if same_chars(&c, "de") || same_chars(&c, "de-de") || same_chars(&c, "german") {
        Some(Language::German1996)
    } else if same_chars(&c, "de-1901") || same_chars(&c, "german-1901") {
        Some(Language::German1901)
    } else if same_chars(&c, "de-ch") || same_chars(&c, "german-swiss") {
        Some(Language::GermanSwiss)
    } else if same_chars(&c, "en") || same_chars(&c, "en-us") || same_chars(&c, "english") || same_chars(&c, "english-us") {
        Some(Language::EnglishUS)
    } else if same_chars(&c, "en-gb") || same_chars(&c, "english-gb") || same_chars(&c, "english-uk") {
        Some(Language::EnglishGB)
    } else if same_chars(&c, "fr") || same_chars(&c, "fr-fr") || same_chars(&c, "french") {
        Some(Language::French)
    } else if same_chars(&c, "es") || same_chars(&c, "es-es") || same_chars(&c, "spanish") {
        Some(Language::Spanish)
    } else if same_chars(&c, "it") || same_chars(&c, "it-it") || same_chars(&c, "italian") {
        Some(Language::Italian)
    } else if same_chars(&c, "pt") || same_chars(&c, "pt-pt") || same_chars(&c, "pt-br") || same_chars(&c, "portuguese") {
        Some(Language::Portuguese)
    } else if same_chars(&c, "nl") || same_chars(&c, "nl-nl") || same_chars(&c, "dutch") {
        Some(Language::Dutch)
    } else if same_chars(&c, "pl") || same_chars(&c, "pl-pl") || same_chars(&c, "polish") {
        Some(Language::Polish)
    } else if same_chars(&c, "ru") || same_chars(&c, "ru-ru") || same_chars(&c, "russian") {
        Some(Language::Russian)
    } else if same_chars(&c, "sv") || same_chars(&c, "sv-se") || same_chars(&c, "swedish") {
        Some(Language::Swedish)
    } else if same_chars(&c, "da") || same_chars(&c, "da-dk") || same_chars(&c, "danish") {
        Some(Language::Danish)
    } else if same_chars(&c, "fi") || same_chars(&c, "fi-fi") || same_chars(&c, "finnish") {
        Some(Language::Finnish)
    } else if same_chars(&c, "cs") || same_chars(&c, "cs-cz") || same_chars(&c, "czech") {
        Some(Language::Czech)
    } else if same_chars(&c, "hu") || same_chars(&c, "hu-hu") || same_chars(&c, "hungarian") {
        Some(Language::Hungarian)
    } else if same_chars(&c, "tr") || same_chars(&c, "tr-tr") || same_chars(&c, "turkish") {
        Some(Language::Turkish)
    } else if same_chars(&c, "el") || same_chars(&c, "el-gr") || same_chars(&c, "greek") {
        Some(Language::GreekMono)
    } else if same_chars(&c, "uk") || same_chars(&c, "uk-ua") || same_chars(&c, "ukrainian") {
        Some(Language::Ukrainian)
    } else if same_chars(&c, "hr") || same_chars(&c, "hr-hr") || same_chars(&c, "croatian") {
        Some(Language::Croatian)
    } else if same_chars(&c, "ro") || same_chars(&c, "ro-ro") || same_chars(&c, "romanian") {
        Some(Language::Romanian)
    } else if same_chars(&c, "sk") || same_chars(&c, "sk-sk") || same_chars(&c, "slovak") {
        Some(Language::Slovak)
    } else if same_chars(&c, "sl") || same_chars(&c, "sl-si") || same_chars(&c, "slovenian") {
        Some(Language::Slovenian)
    } else if same_chars(&c, "bg") || same_chars(&c, "bg-bg") || same_chars(&c, "bulgarian") {
        Some(Language::Bulgarian)
    } else if same_chars(&c, "ca") || same_chars(&c, "ca-es") || same_chars(&c, "catalan") {
        Some(Language::Catalan)
    } else if same_chars(&c, "et") || same_chars(&c, "et-ee") || same_chars(&c, "estonian") {
        Some(Language::Estonian)
    } else if same_chars(&c, "lv") || same_chars(&c, "lv-lv") || same_chars(&c, "latvian") {
        Some(Language::Latvian)
    } else if same_chars(&c, "lt") || same_chars(&c, "lt-lt") || same_chars(&c, "lithuanian") {
        Some(Language::Lithuanian)
    } else if same_chars(&c, "id") || same_chars(&c, "id-id") || same_chars(&c, "indonesian") {
        Some(Language::Indonesian)
    } else if same_chars(&c, "la") || same_chars(&c, "latin") {
        Some(Language::Latin)
    } else {
        None
    }
}

/// The language that a code or name stands for, in any case, or `None` where it
/// is not recognised.
pub fn map_language_code(code: &str) -> (r: Option<Language>)
    ensures
        r == language_of_code(lower_of(code@)),
{
    let lower = lowercase(code);
    language_for_code(lower.as_str())
}

impl Default for WordHyphenator {
    /// A US English hyphenator.
    fn default() -> (r: Self)
        ensures
            r.spec_language() == Language::EnglishUS,
    {
        Self::english()
    }
}

} // verus!
