use tktts::sanitize::sanitize_text;
use tktts::segment::split_text;
use tktts::BYTE_LIMIT;

#[test]
fn single_segment_under_limit() {
    let segs = split_text("Hello world.", BYTE_LIMIT);
    assert_eq!(segs, vec!["Hello world.".to_string()]);
}

#[test]
fn exact_fit_appends_without_flush() {
    // "A." (2 bytes) + " B." (3 bytes) lands exactly on the limit: the
    // tie-break keeps accumulating, so the flush happens only at " C.".
    let segs = split_text("A. B. C.", 5);
    assert_eq!(segs, vec!["A. B.".to_string(), " C.".to_string()]);
}

#[test]
fn oversized_token_kept_whole() {
    let token = "x".repeat(500);
    let segs = split_text(&token, BYTE_LIMIT);
    assert_eq!(segs, vec![token]);
}

#[test]
fn empty_input_gives_no_segments() {
    let segs = split_text("", BYTE_LIMIT);
    assert!(segs.is_empty());
}

#[test]
fn oversized_unit_breaks_at_whitespace() {
    let segs = split_text("aaaa bb cc.", 8);
    assert_eq!(segs, vec!["aaaa bb".to_string(), "cc.".to_string()]);
}

#[test]
fn newline_is_a_boundary() {
    let segs = split_text("ab\ncd", 3);
    assert_eq!(segs, vec!["ab\n".to_string(), "cd".to_string()]);
}

#[test]
fn multibyte_characters_measured_in_bytes() {
    // Each umlaut takes two UTF-8 bytes, so two of them never share a
    // two-byte segment.
    let segs = split_text("\u{e4} \u{e4}", 2);
    assert_eq!(segs, vec!["\u{e4}".to_string(), "\u{e4}".to_string()]);
}

#[test]
fn splitting_twice_yields_identical_sequences() {
    let text = "One, two; three. Four\nfive (six).";
    let first = split_text(text, 10);
    let second = split_text(text, 10);
    assert_eq!(first, second);
}

#[test]
fn coverage_keeps_every_non_whitespace_character() {
    let text = "The quick brown fox, jumps over. The lazy dog!";
    let segs = split_text(text, 12);
    let rejoined: String = segs.concat();
    let squash = |s: &str| s.chars().filter(|c| !c.is_whitespace()).collect::<String>();
    assert_eq!(squash(&rejoined), squash(text));
}

#[test]
fn all_segments_respect_limit_or_are_single_tokens() {
    let text = "alpha beta gamma delta, epsilon zeta. abcdefghijklmnopqrstuvwxyz";
    for seg in split_text(text, 10) {
        assert!(seg.len() <= 10 || !seg.contains(char::is_whitespace));
    }
}

#[test]
fn no_boundary_under_limit_is_one_segment() {
    let segs = split_text("hello world", BYTE_LIMIT);
    assert_eq!(segs, vec!["hello world".to_string()]);
}

#[test]
fn pure_whitespace_input_gives_no_segments() {
    assert!(split_text("   ", BYTE_LIMIT).is_empty());
    assert!(split_text("\n\n", BYTE_LIMIT).is_empty());
    assert!(split_text(" \t \r ", BYTE_LIMIT).is_empty());
}

#[test]
fn whitespace_only_accumulation_is_discarded() {
    // The leading newlines accumulate, but a whitespace-only
    // accumulator is dropped at flush instead of becoming a segment.
    assert_eq!(split_text("\n\nAAAA", 3), vec!["AAAA".to_string()]);
}

#[test]
fn dash_and_ellipsis_are_boundaries() {
    let segs = split_text("ab\u{2014}cd\u{2026}ef", 4);
    assert_eq!(
        segs,
        vec![
            "ab\u{2014}".to_string(),
            "cd\u{2026}".to_string(),
            "ef".to_string()
        ]
    );
}

#[test]
fn sanitize_replaces_reserved_characters() {
    assert_eq!(
        sanitize_text("\u{e4}+\u{f6}&\u{fc}\u{df}"),
        "aeplusoeanduess".to_string()
    );
}

#[test]
fn sanitize_leaves_plain_text_alone() {
    assert_eq!(sanitize_text("Hello world."), "Hello world.".to_string());
}
