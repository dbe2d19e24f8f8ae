use synthia::text_metrics::{text_extent, wrap_text};

fn wrap(content: &str, max: usize) -> Vec<String> {
    wrap_text(content, max)
}

#[test]
fn counts_lines_and_the_longest_line() {
    assert_eq!(text_extent(""), (1, 0));
    assert_eq!(text_extent("hello"), (1, 5));
    assert_eq!(text_extent("ab\ncdé\n"), (3, 3));
}

#[test]
fn wraps_at_word_boundaries() {
    assert_eq!(wrap("hello world foo", 11), vec!["hello world", "foo"]);
    assert_eq!(wrap("hello world foo", 5), vec!["hello", "world", "foo"]);
    assert_eq!(wrap("a b c", 100), vec!["a b c"]);
}

#[test]
fn breaks_words_longer_than_a_line() {
    assert_eq!(wrap("abcdefghij", 4), vec!["abcd", "efgh", "ij"]);
    assert_eq!(wrap("xy abcdefgh z", 4), vec!["xy", "abcd", "efgh", "z"]);
}

#[test]
fn keeps_paragraph_breaks_and_empty_lines() {
    assert_eq!(wrap("a\n\nb", 10), vec!["a", "", "b"]);
    assert_eq!(wrap("", 3), vec![""]);
}

#[test]
fn no_line_is_longer_than_the_limit() {
    let text = "The quick brown fox jumps over the lazy dog\nsupercalifragilistic  spaced  words";
    for max in 1..20 {
        for line in wrap(text, max) {
            assert!(line.chars().count() <= max, "{line:?} is longer than {max}");
        }
    }
}

#[test]
fn wrapping_keeps_every_visible_character_in_order() {
    let text = "Lorem ipsum  dolor\nsit amet, consectetur-adipiscing elit\n\nsed";
    let visible = |s: &str| s.chars().filter(|c| *c != ' ' && *c != '\n').collect::<String>();
    for max in 1..15 {
        let joined: String = wrap(text, max).concat();
        assert_eq!(visible(&joined), visible(text));
    }
}
