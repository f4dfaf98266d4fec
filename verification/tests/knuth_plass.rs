use fop_verified::{Breakpoint, KnuthPlassBreaker, Length, TraitSet};

fn pt(v: i32) -> Length {
    Length::from_pt(v)
}

#[test]
fn test_breaker_default_tolerance() {
    let breaker = KnuthPlassBreaker::new(pt(200));
    assert_eq!(breaker.tolerance, 2);
}

#[test]
fn test_breaker_line_width_stored() {
    let breaker = KnuthPlassBreaker::new(pt(300));
    assert_eq!(breaker.line_width, pt(300));
}

#[test]
fn test_with_tolerance_sets_value() {
    let breaker = KnuthPlassBreaker::new(pt(200)).with_tolerance(5);
    assert_eq!(breaker.tolerance, 5);
}

#[test]
fn test_tolerance_clamped_to_ten() {
    let breaker = KnuthPlassBreaker::new(pt(200)).with_tolerance(100);
    assert_eq!(breaker.tolerance, 10);
}

#[test]
fn test_tolerance_zero_allowed() {
    let breaker = KnuthPlassBreaker::new(pt(200)).with_tolerance(0);
    assert_eq!(breaker.tolerance, 0);
}

#[test]
fn test_tolerance_exactly_ten_not_clamped() {
    let breaker = KnuthPlassBreaker::new(pt(200)).with_tolerance(10);
    assert_eq!(breaker.tolerance, 10);
}

#[test]
fn test_breakpoint_construction() {
    let bp = Breakpoint { position: 5, width: pt(50), penalty: 10, forced: false };
    assert_eq!(bp.position, 5);
    assert_eq!(bp.width, pt(50));
    assert_eq!(bp.penalty, 10);
    assert!(!bp.forced);
}

#[test]
fn test_forced_breakpoint() {
    let bp = Breakpoint { position: 0, width: Length::zero(), penalty: -10000, forced: true };
    assert!(bp.forced);
    assert!(bp.penalty < 0);
}

#[test]
fn test_inhibited_break_high_penalty() {
    let bp = Breakpoint { position: 3, width: pt(30), penalty: 10000, forced: false };
    assert!(bp.penalty > 0);
    assert!(!bp.forced);
}

#[test]
fn test_short_paragraph_all_words_present() {
    let breaker = KnuthPlassBreaker::new(pt(300));
    let traits = TraitSet::default();
    let lines = breaker.break_text("Hello world", &traits);
    assert!(!lines.is_empty());
    let joined = lines.join(" ");
    assert!(joined.contains("Hello"));
    assert!(joined.contains("world"));
}

#[test]
fn test_single_word_produces_one_line() {
    let breaker = KnuthPlassBreaker::new(pt(200));
    let traits = TraitSet::default();
    let lines = breaker.break_text("Hello", &traits);
    assert_eq!(lines.len(), 1);
    assert_eq!(lines[0], "Hello");
}

#[test]
fn test_medium_paragraph_two_or_three_lines() {
    let breaker = KnuthPlassBreaker::new(pt(100));
    let traits = TraitSet::default();
    let text = "The quick brown fox jumps over the lazy dog near the river";
    let lines = breaker.break_text(text, &traits);
    assert!(lines.len() >= 2);
}

#[test]
fn test_medium_paragraph_all_words_preserved() {
    let breaker = KnuthPlassBreaker::new(pt(120));
    let traits = TraitSet::default();
    let text = "alpha beta gamma delta epsilon zeta eta theta";
    let lines = breaker.break_text(text, &traits);
    let all_words: Vec<String> = lines.iter().flat_map(|l| l.split_whitespace().map(|s| s.to_string())).collect();
    let expected: Vec<String> = text.split_whitespace().map(|s| s.to_string()).collect();
    assert_eq!(all_words, expected);
}

#[test]
fn test_tight_paragraph_many_lines() {
    let breaker = KnuthPlassBreaker::new(pt(60));
    let traits = TraitSet::default();
    let text = "This is a very long text that will need many line breaks to fit";
    let lines = breaker.break_text(text, &traits);
    assert!(lines.len() > 2);
}

#[test]
fn test_empty_text_produces_no_lines() {
    let breaker = KnuthPlassBreaker::new(pt(200));
    let traits = TraitSet::default();
    let lines = breaker.break_text("", &traits);
    assert!(lines.is_empty());
}

#[test]
fn test_single_very_long_word_does_not_panic() {
    let breaker = KnuthPlassBreaker::new(pt(50));
    let traits = TraitSet::default();
    let _lines = breaker.break_text("Supercalifragilisticexpialidocious", &traits);
}

#[test]
fn test_text_to_items_produces_items_for_two_words() {
    let breaker = KnuthPlassBreaker::new(pt(200));
    let traits = TraitSet::default();
    let items = breaker.text_to_items("hello world", &traits);
    assert_eq!(items.len(), 5);
}

#[test]
fn test_text_to_items_single_word() {
    let breaker = KnuthPlassBreaker::new(pt(200));
    let traits = TraitSet::default();
    let items = breaker.text_to_items("hello", &traits);
    assert_eq!(items.len(), 2);
}

#[test]
fn test_text_to_items_three_words() {
    let breaker = KnuthPlassBreaker::new(pt(200));
    let traits = TraitSet::default();
    let items = breaker.text_to_items("one two three", &traits);
    assert_eq!(items.len(), 8);
}

#[test]
fn test_calculate_width_boxes_only() {
    let breaker = KnuthPlassBreaker::new(pt(200));
    let traits = TraitSet::default();
    let items = breaker.text_to_items("hello world", &traits);
    let w = breaker.calculate_width(&items, 0, 1);
    assert!(w > Length::zero());
}

#[test]
fn test_calculate_width_zero_range() {
    let breaker = KnuthPlassBreaker::new(pt(200));
    let traits = TraitSet::default();
    let items = breaker.text_to_items("hello", &traits);
    let w = breaker.calculate_width(&items, 0, 0);
    assert_eq!(w, Length::zero());
}

#[test]
fn test_narrower_line_width_produces_more_lines() {
    let traits = TraitSet::default();
    let text = "one two three four five six seven eight nine ten";
    let lines_wide = KnuthPlassBreaker::new(pt(300)).break_text(text, &traits);
    let lines_narrow = KnuthPlassBreaker::new(pt(80)).break_text(text, &traits);
    assert!(lines_narrow.len() >= lines_wide.len());
}

#[test]
fn test_larger_font_size_produces_more_lines() {
    let text = "one two three four five six seven eight";
    let traits_small = TraitSet { font_size: Some(pt(8)), ..Default::default() };
    let traits_large = TraitSet { font_size: Some(pt(18)), ..Default::default() };
    let breaker = KnuthPlassBreaker::new(pt(120));
    let lines_small = breaker.break_text(text, &traits_small);
    let lines_large = breaker.break_text(text, &traits_large);
    assert!(lines_large.len() >= lines_small.len());
}

#[test]
fn test_items_to_lines_reconstructs_text() {
    let breaker = KnuthPlassBreaker::new(pt(400));
    let traits = TraitSet::default();
    let text = "hello world foo bar";
    let lines = breaker.break_text(text, &traits);
    let reconstructed: String = lines.join(" ");
    for word in text.split_whitespace() {
        assert!(reconstructed.contains(word));
    }
}

#[test]
fn test_zero_penalty_is_good_break() {
    let bp = Breakpoint { position: 5, width: pt(40), penalty: 0, forced: false };
    assert_eq!(bp.penalty, 0);
}

#[test]
fn test_negative_penalty_is_forced_break() {
    let bp = Breakpoint { position: 10, width: Length::zero(), penalty: -10000, forced: true };
    assert!(bp.penalty < 0);
    assert!(bp.forced);
}

// ---- further checks ----

#[test]
fn lines_rejoin_to_the_words_of_the_text() {
    let breaker = KnuthPlassBreaker::new(pt(100));
    let traits = TraitSet::default();
    let text = "  The quick\tbrown fox\n jumps over  the lazy dog ";
    let lines = breaker.break_text(text, &traits);
    let words: Vec<&str> = text.split_whitespace().collect();
    assert_eq!(lines.join(" "), words.join(" "));
}

#[test]
fn word_too_wide_for_any_line_gives_no_line() {
    let breaker = KnuthPlassBreaker::new(pt(50));
    let traits = TraitSet::default();
    let lines = breaker.break_text("Supercalifragilisticexpialidocious", &traits);
    assert!(lines.is_empty());
}

#[test]
fn short_text_stays_on_one_line() {
    // one line of "one two three" is far closer to 200pt than any split into several lines
    let breaker = KnuthPlassBreaker::new(pt(200));
    let traits = TraitSet::default();
    let lines = breaker.break_text("one two three", &traits);
    assert_eq!(lines, vec!["one two three".to_string()]);
}

#[test]
fn hello_world_at_300pt_is_one_line() {
    let breaker = KnuthPlassBreaker::new(pt(300));
    let traits = TraitSet::default();
    assert_eq!(breaker.break_text("Hello world", &traits), vec!["Hello world".to_string()]);
}

#[test]
fn least_demerits_prefers_balanced_lines() {
    // Courier 10pt: every character and the space are 6pt wide. Line width 60pt, widest
    // feasible line 90pt; a line's width includes the space before its break.
    // "aaaa bbbb cccc dddd" on one line is 114pt, too wide. Of the feasible splits,
    // "aaaa bbbb " (60pt) + "cccc dddd" (54pt) has demerits 0 + 6^2, less than any other,
    // e.g. "aaaa " (30pt) + "bbbb cccc dddd" (84pt) with 30^2 + 24^2.
    let breaker = KnuthPlassBreaker::new(pt(60));
    let traits = TraitSet { font_family: Some("Courier".to_string()), font_size: Some(pt(10)), ..Default::default() };
    let lines = breaker.break_text("aaaa bbbb cccc dddd", &traits);
    assert_eq!(lines, vec!["aaaa bbbb".to_string(), "cccc dddd".to_string()]);
}

#[test]
fn words_are_measured_in_the_trait_font() {
    let breaker = KnuthPlassBreaker::new(pt(200));
    let traits = TraitSet { font_family: Some("Courier".to_string()), font_size: Some(pt(10)), ..Default::default() };
    let items = breaker.text_to_items("abc", &traits);
    // three Courier glyphs of 600/1000 em at 10pt
    assert_eq!(breaker.calculate_width(&items, 0, 1), Length::from_millipoints(18000));
}

#[test]
fn find_breakpoints_starts_at_zero_and_ends_at_the_forced_break() {
    let breaker = KnuthPlassBreaker::new(pt(200));
    let traits = TraitSet::default();
    let items = breaker.text_to_items("hello world", &traits);
    let bps = breaker.find_breakpoints(&items);
    assert_eq!(bps, vec![0, 5]);
}
