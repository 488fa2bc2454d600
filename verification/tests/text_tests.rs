use mako_rs::text::{
    append_ellipsis, is_blank, is_whitespace, split_long_word, split_paragraphs, split_words,
    wrap_paragraph, wrap_text, ELLIPSIS,
};

fn at_most(n: usize) -> impl Fn(&str) -> bool {
    move |s: &str| s.chars().count() <= n
}

fn strings(v: &[&str]) -> Vec<String> {
    v.iter().map(|s| s.to_string()).collect()
}

#[test]
fn whitespace_matches_std_for_every_char() {
    for u in 0u32..=0x10FFFF {
        if let Some(c) = char::from_u32(u) {
            assert_eq!(is_whitespace(c), c.is_whitespace(), "U+{:04X}", u);
        }
    }
}

#[test]
fn blank_matches_trim() {
    for s in ["", " ", "\t \u{3000}", " a ", "x", "\u{2009}\u{00A0}"] {
        assert_eq!(is_blank(s), s.trim().is_empty(), "{:?}", s);
    }
}

#[test]
fn words_match_split_whitespace() {
    for s in ["", "  ", "one", " one  two\tthree\n", "a\u{3000}b\u{00A0}c", "éclair  déjà-vu "] {
        let expected: Vec<String> = s.split_whitespace().map(|w| w.to_string()).collect();
        assert_eq!(split_words(s), expected, "{:?}", s);
    }
}

#[test]
fn paragraphs_match_split_on_line_feed() {
    for s in ["", "\n", "a", "a\nb", "a\n\nb\n", "\n\nx"] {
        let expected: Vec<String> = s.split('\n').map(|p| p.to_string()).collect();
        assert_eq!(split_paragraphs(s), expected, "{:?}", s);
    }
}

#[test]
fn long_word_is_cut_greedily() {
    assert_eq!(split_long_word("abcdefgh", &at_most(3)), strings(&["abc", "def", "gh"]));
    assert_eq!(split_long_word("abc", &at_most(3)), strings(&["abc"]));
    assert_eq!(split_long_word("", &at_most(3)), Vec::<String>::new());
}

#[test]
fn long_word_keeps_one_char_per_piece_when_nothing_fits() {
    let never = |_: &str| false;
    assert_eq!(split_long_word("abc", &never), strings(&["a", "b", "c"]));
}

#[test]
fn paragraph_fills_lines_with_words() {
    assert_eq!(
        wrap_paragraph("hello world foo bar", &at_most(11)),
        strings(&["hello world", "foo bar"])
    );
    assert_eq!(wrap_paragraph("  spaced   out  ", &at_most(20)), strings(&["spaced out"]));
}

#[test]
fn blank_paragraph_gives_one_empty_line() {
    assert_eq!(wrap_paragraph("   \t ", &at_most(5)), strings(&[""]));
    assert_eq!(wrap_paragraph("", &at_most(5)), strings(&[""]));
}

#[test]
fn too_wide_word_is_cut_and_its_last_piece_continues() {
    // "ab" fits; "abcdefg" does not and is cut into "abc", "def", "g";
    // "g h" then fits on one line.
    assert_eq!(
        wrap_paragraph("ab abcdefg h", &at_most(3)),
        strings(&["ab", "abc", "def", "g h"])
    );
}

#[test]
fn text_wraps_paragraph_by_paragraph() {
    assert_eq!(wrap_text("a b\n\nc", &at_most(1)), strings(&["a", "b", "", "c"]));
    assert_eq!(wrap_text("", &at_most(4)), strings(&[""]));
    assert_eq!(wrap_text("one two\nthree", &at_most(7)), strings(&["one two", "three"]));
}

#[test]
fn wrapping_keeps_every_visible_char() {
    let text = "The quick brown fox\njumps over   the lazydoglongword\n\n end";
    let lines = wrap_text(text, &at_most(6));
    let visible: String = text.chars().filter(|c| !c.is_whitespace()).collect();
    let kept: String = lines.concat().chars().filter(|c| !c.is_whitespace()).collect();
    assert_eq!(kept, visible);
    for line in &lines {
        assert!(line.chars().count() <= 6);
    }
}

#[test]
fn ellipsis_is_appended_when_it_fits() {
    assert_eq!(append_ellipsis("abc", &at_most(5)), format!("abc{}", ELLIPSIS));
}

#[test]
fn line_is_shortened_until_it_fits_with_ellipsis() {
    assert_eq!(append_ellipsis("abcdef", &at_most(5)), format!("abcd{}", ELLIPSIS));
}

#[test]
fn ellipsis_alone_when_no_char_fits() {
    assert_eq!(append_ellipsis("abcdef", &at_most(1)), ELLIPSIS.to_string());
    assert_eq!(append_ellipsis("", &at_most(1)), ELLIPSIS.to_string());
}

#[test]
fn nothing_when_even_the_ellipsis_does_not_fit() {
    assert_eq!(append_ellipsis("abc", &at_most(0)), String::new());
}
