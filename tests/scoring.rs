use mala_strings::score::{enhanced_human_readable, MAX_STRING_CHAR_LIMIT};

#[test]
fn empty_string_scores_zero() {
    assert_eq!(enhanced_human_readable(""), 0);
}

#[test]
fn over_limit_scores_zero() {
    let s = "a".repeat(2601);
    assert_eq!(enhanced_human_readable(&s), 0);
    let s = "Hello, World! ".repeat(200);
    assert!(s.len() > MAX_STRING_CHAR_LIMIT);
    assert_eq!(enhanced_human_readable(&s), 0);
}

#[test]
fn at_limit_is_scored() {
    let s = "a".repeat(2600);
    assert_eq!(enhanced_human_readable(&s), 83);
}

#[test]
fn known_scores() {
    assert_eq!(enhanced_human_readable("Hello, World! This is a test."), 78);
    assert_eq!(enhanced_human_readable("abcdef"), 114);
    assert_eq!(enhanced_human_readable("eeeeee"), 90);
    assert_eq!(enhanced_human_readable("~~~~~~"), 107);
    assert_eq!(enhanced_human_readable("AAAAAAAAAAAA"), 91);
    assert_eq!(enhanced_human_readable("e"), 132);
    assert_eq!(enhanced_human_readable("x"), 141);
    assert_eq!(
        enhanced_human_readable("The quick brown fox jumps over the lazy dog"),
        78
    );
}

#[test]
fn same_input_same_score() {
    let s = "It was the best of times, it was the worst of times";
    let a = enhanced_human_readable(s);
    let b = enhanced_human_readable(&String::from(s));
    assert_eq!(a, b);
    assert_eq!(a, enhanced_human_readable(s));
}

#[test]
fn no_alphabet_character_scores_zero() {
    assert_eq!(enhanced_human_readable("\u{e9}\u{e8}\u{ea}\u{eb}\u{e0}\u{e2}"), 0);
    assert_eq!(enhanced_human_readable("\t\t\t\t\t\t"), 0);
}

#[test]
fn uniform_printable_run_and_sentence() {
    let uniform: String = (32u8..127).map(|b| b as char).collect();
    assert_eq!(uniform.len(), 95);
    assert_eq!(enhanced_human_readable(&uniform), 63);
    let sentence =
        "It was the best of times, it was the worst of times, it was the age of wisdom, it was the age of";
    assert_eq!(enhanced_human_readable(sentence), 61);
}

#[test]
fn diversity_alone_moves_score() {
    // Same frequency vector direction, lower diversity ratio.
    assert!(enhanced_human_readable("ee") < enhanced_human_readable("e"));
}
