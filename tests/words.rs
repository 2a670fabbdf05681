use hyphenation::Language;
use koharu_renderer::words::{
    find_longest_word, language_for_code, map_language_code, split_longest_word, strip_punctuation,
    WordHyphenator,
};

#[test]
fn hyphenator_finds_english_hyphenation_points() {
    let hyph = WordHyphenator::english();

    // "internationalization" should have multiple hyphenation points
    let points = hyph.hyphenation_points("internationalization");
    assert!(!points.is_empty(), "should find hyphenation points");

    // The hyphenation points should be at syllable boundaries
    // in-ter-na-tion-al-iza-tion
    assert!(points.len() >= 3, "should have multiple split points");
}

#[test]
fn hyphenator_finds_german_hyphenation_points() {
    let hyph = WordHyphenator::new(Language::German1996);

    // "Donaudampfschifffahrt" is a famous long German compound word
    let points = hyph.hyphenation_points("Donaudampfschifffahrt");
    assert!(
        !points.is_empty(),
        "should find hyphenation points for German"
    );
}

#[test]
fn hyphenator_finds_split_point_near_center() {
    let hyph = WordHyphenator::english();

    // For "internationalization", the split should be near the middle
    let word = "internationalization";
    let split = hyph.find_split_point(word);
    assert!(split.is_some());

    let pos = split.unwrap();
    let len = word.chars().count();
    let mid = len / 2;

    // The split should be reasonably close to the middle (within 5 chars)
    assert!(
        (pos as isize - mid as isize).unsigned_abs() <= 5,
        "split at {} should be near middle {}",
        pos,
        mid
    );
}

#[test]
fn hyphenator_returns_none_for_short_words() {
    let hyph = WordHyphenator::english();

    // Very short words typically have no hyphenation points
    assert!(hyph.hyphenation_points("cat").is_empty());
    assert!(hyph.hyphenation_points("dog").is_empty());
    assert!(hyph.find_split_point("hi").is_none());
}

#[test]
fn split_longest_word_with_hyphenator() {
    let hyph = WordHyphenator::english();

    let text = "This is internationalization test";
    let result = split_longest_word(text, "internationalization", &hyph);

    // Should contain a hyphen followed by space
    assert!(
        result.contains("- "),
        "result should contain hyphen: {}",
        result
    );
    // Should still contain both parts of the word
    assert!(result.contains("inter"), "should have first part");
}

#[test]
fn split_longest_word_returns_unchanged_if_no_hyphenation() {
    let hyph = WordHyphenator::english();

    // Short words with no hyphenation points should be returned unchanged
    let text = "Test cat dog";
    let result = split_longest_word(text, "cat", &hyph);

    // Should not contain a hyphen since "cat" has no hyphenation points
    assert_eq!(result, text, "short words should not be split");
}

#[test]
fn strip_punctuation_trailing_period() {
    let (prefix, clean, suffix) = strip_punctuation("word.");
    assert_eq!(prefix, "");
    assert_eq!(clean, "word");
    assert_eq!(suffix, ".");
}

#[test]
fn strip_punctuation_trailing_exclamation() {
    let (prefix, clean, suffix) = strip_punctuation("Hello!");
    assert_eq!(prefix, "");
    assert_eq!(clean, "Hello");
    assert_eq!(suffix, "!");
}

#[test]
fn strip_punctuation_multiple_trailing() {
    let (prefix, clean, suffix) = strip_punctuation("What?!");
    assert_eq!(prefix, "");
    assert_eq!(clean, "What");
    assert_eq!(suffix, "?!");
}

#[test]
fn strip_punctuation_leading_quote() {
    let (prefix, clean, suffix) = strip_punctuation("\"quoted\"");
    assert_eq!(prefix, "\"");
    assert_eq!(clean, "quoted");
    assert_eq!(suffix, "\"");
}

#[test]
fn strip_punctuation_ellipsis() {
    let (prefix, clean, suffix) = strip_punctuation("wait...");
    assert_eq!(prefix, "");
    assert_eq!(clean, "wait");
    assert_eq!(suffix, "...");
}

#[test]
fn strip_punctuation_german_quotes() {
    // German opening quote „ (U+201E) and closing quote " (U+201C)
    let (prefix, clean, suffix) = strip_punctuation("\u{201E}Wort\u{201C}");
    assert_eq!(prefix, "\u{201E}");
    assert_eq!(clean, "Wort");
    assert_eq!(suffix, "\u{201C}");
}

#[test]
fn strip_punctuation_no_punctuation() {
    let (prefix, clean, suffix) = strip_punctuation("hello");
    assert_eq!(prefix, "");
    assert_eq!(clean, "hello");
    assert_eq!(suffix, "");
}

#[test]
fn strip_punctuation_all_punctuation() {
    let (prefix, clean, suffix) = strip_punctuation("...");
    assert_eq!(prefix, "...");
    assert_eq!(clean, "");
    assert_eq!(suffix, "");
}

#[test]
fn split_word_with_trailing_period_german() {
    let hyph = WordHyphenator::new(Language::German1996);

    // This is the real-world case: using a long German compound word with punctuation
    let text = "Test Persönlichkeitsausscheidung. Ende";
    let result = split_longest_word(text, "Persönlichkeitsausscheidung.", &hyph);

    // The period should be preserved at the end
    assert!(
        result.contains("."),
        "period should be preserved: {}",
        result
    );
    // Should have a hyphen
    assert!(result.contains("- "), "should have hyphen: {}", result);
}

#[test]
fn split_word_with_question_mark_english() {
    let hyph = WordHyphenator::english();

    let text = "Is this internationalization?";
    let result = split_longest_word(text, "internationalization?", &hyph);

    // The question mark should be preserved
    assert!(
        result.contains("?"),
        "question mark should be preserved: {}",
        result
    );
    assert!(result.contains("- "), "should have hyphen: {}", result);
}

#[test]
fn split_word_with_quotes() {
    let hyph = WordHyphenator::english();

    let text = "The word \"internationalization\" is long";
    let result = split_longest_word(text, "\"internationalization\"", &hyph);

    // Both quotes should be preserved
    assert!(
        result.contains("\""),
        "quotes should be preserved: {}",
        result
    );
    assert!(result.contains("- "), "should have hyphen: {}", result);
}

#[test]
fn question_mark_split_keeps_leading_words() {
    let hyph = WordHyphenator::english();
    let result = split_longest_word(
        "Is this internationalization?",
        "internationalization?",
        &hyph,
    );
    assert!(result.starts_with("Is this "));
    assert!(result.ends_with("?"));
    assert_eq!(result.matches("- ").count(), 1);
    assert_eq!(result.replace("- ", ""), "Is this internationalization?");
}

#[test]
fn short_word_is_not_split() {
    let hyph = WordHyphenator::english();
    assert_eq!(split_longest_word("Test cat dog", "cat", &hyph), "Test cat dog");
}

#[test]
fn split_replaces_only_first_occurrence() {
    let hyph = WordHyphenator::english();
    let result = split_longest_word(
        "internationalization internationalization",
        "internationalization",
        &hyph,
    );
    assert_eq!(result.matches("- ").count(), 1);
    assert!(result.ends_with(" internationalization"));
}

#[test]
fn split_of_missing_word_keeps_text() {
    let hyph = WordHyphenator::english();
    assert_eq!(
        split_longest_word("Hello there", "internationalization", &hyph),
        "Hello there"
    );
    assert_eq!(split_longest_word("Hello there", "", &hyph), "Hello there");
}

#[test]
fn split_point_is_a_candidate_closest_to_middle() {
    let hyph = WordHyphenator::english();
    let word = "internationalization";
    let points = hyph.hyphenation_points(word);
    let k = hyph.find_split_point(word).unwrap();
    let mid = (word.chars().count() / 2) as isize;
    assert!(points.contains(&k));
    for p in &points {
        assert!((k as isize - mid).abs() <= (*p as isize - mid).abs());
    }
    let first_best = points
        .iter()
        .position(|p| (*p as isize - mid).abs() == (k as isize - mid).abs())
        .unwrap();
    assert_eq!(points[first_best], k);
}

#[test]
fn hyphenation_points_are_character_positions() {
    let hyph = WordHyphenator::new(Language::German1996);
    let word = "Persönlichkeitsausscheidung";
    let n = word.chars().count();
    let points = hyph.hyphenation_points(word);
    assert!(!points.is_empty());
    for w in points.windows(2) {
        assert!(w[0] < w[1]);
    }
    for p in &points {
        assert!(*p > 0 && *p < n);
    }
}

#[test]
fn default_hyphenator_is_english() {
    let hyph = WordHyphenator::default();
    assert_eq!(hyph.language(), Language::EnglishUS);
    assert_eq!(WordHyphenator::english().language(), Language::EnglishUS);
    assert_eq!(
        WordHyphenator::new(Language::German1996).language(),
        Language::German1996
    );
}

#[test]
fn longest_word_counts_characters_and_takes_first_on_tie() {
    assert_eq!(find_longest_word("ab cd ef"), "ab");
    assert_eq!(find_longest_word("  über  aaaaa "), "aaaaa");
    assert_eq!(find_longest_word("ääää bbbbb"), "bbbbb");
    assert_eq!(find_longest_word("ööö abc"), "ööö");
    assert_eq!(find_longest_word("Test Persönlichkeitsausscheidung. Ende"), "Persönlichkeitsausscheidung.");
    assert_eq!(find_longest_word(""), "");
    assert_eq!(find_longest_word(" \t\n "), "");
}

#[test]
fn strip_punctuation_keeps_inner_punctuation() {
    let (prefix, clean, suffix) = strip_punctuation("(«don't»)");
    assert_eq!(prefix, "(«");
    assert_eq!(clean, "don't");
    assert_eq!(suffix, "»)");
    let (prefix, clean, suffix) = strip_punctuation("");
    assert_eq!((prefix.as_str(), clean.as_str(), suffix.as_str()), ("", "", ""));
    for w in ["—a—", "…x", "\u{2018}y\u{2019}", "z"] {
        let (p, c, s) = strip_punctuation(w);
        assert_eq!(format!("{}{}{}", p, c, s), w);
    }
}

#[test]
fn language_codes_map_case_insensitively() {
    assert_eq!(map_language_code("de"), Some(Language::German1996));
    assert_eq!(map_language_code("DE-CH"), Some(Language::GermanSwiss));
    assert_eq!(map_language_code("English-UK"), Some(Language::EnglishGB));
    assert_eq!(map_language_code("Greek"), Some(Language::GreekMono));
    assert_eq!(map_language_code("pt-BR"), Some(Language::Portuguese));
    assert_eq!(map_language_code("la"), Some(Language::Latin));
    assert_eq!(map_language_code("klingon"), None);
    assert_eq!(map_language_code(""), None);
    assert_eq!(language_for_code("de-1901"), Some(Language::German1901));
    assert_eq!(language_for_code("DE"), None);
}

#[test]
fn white_space_matches_std() {
    for c in ['\t', '\n', '\u{b}', '\u{c}', '\r', ' ', '\u{85}', '\u{a0}', '\u{1680}', '\u{2000}', '\u{200a}', '\u{2028}', '\u{2029}', '\u{202f}', '\u{205f}', '\u{3000}', 'a', '\u{200b}', '\u{feff}', '-'] {
        assert_eq!(koharu_renderer::text::is_white(c), c.is_whitespace());
    }
}
