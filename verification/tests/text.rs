use audin::pipeline::text::{dedup_overlap, split_words, white_space};

#[test]
fn dedup_empty_prev() {
    assert_eq!(dedup_overlap("", "hello world"), "hello world");
}

#[test]
fn dedup_empty_current() {
    assert_eq!(dedup_overlap("hello world", ""), "");
}

#[test]
fn dedup_no_overlap() {
    let result = dedup_overlap("hello world", "foo bar");
    assert_eq!(result, "foo bar");
}

#[test]
fn dedup_partial_overlap() {
    let result = dedup_overlap("hello world how", "world how are you");
    assert_eq!(result, "are you");
}

#[test]
fn dedup_full_overlap() {
    let result = dedup_overlap("hello world", "hello world");
    assert_eq!(result, "");
}

#[test]
fn dedup_exact_overlap_same_words() {
    let result = dedup_overlap("one two three", "two three four");
    assert_eq!(result, "four");
}

#[test]
fn dedup_single_word() {
    let result = dedup_overlap("hello", "hello world");
    assert_eq!(result, "world");
}

#[test]
fn dedup_takes_the_longest_overlap() {
    // One word matches, and so do three.
    assert_eq!(dedup_overlap("x a b a", "a b a c"), "c");
    assert_eq!(dedup_overlap("go go", "go go go"), "go");
}

#[test]
fn dedup_keeps_current_as_it_is_without_overlap() {
    assert_eq!(dedup_overlap("a", "  b \n c "), "  b \n c ");
    assert_eq!(dedup_overlap(" \t", " b  c "), " b  c ");
    assert_eq!(dedup_overlap("a b", " \t "), " \t ");
}

#[test]
fn dedup_normalizes_spaces_after_an_overlap() {
    assert_eq!(dedup_overlap("so a\u{a0}b", "a  b\tc\u{2003}d\n"), "c d");
}

#[test]
fn dedup_compares_whole_words() {
    assert_eq!(dedup_overlap("hello wor", "world peace"), "world peace");
    assert_eq!(dedup_overlap("Hello", "hello"), "hello");
}

#[test]
fn dedup_leaves_the_words_after_the_overlap() {
    let prev = "the quick brown fox";
    let current = "brown  fox jumps over";
    let rest = dedup_overlap(prev, current);
    assert_eq!(split_words(&rest), split_words(current)[2..].to_vec());
    assert_eq!(split_words(current)[..2].to_vec(), split_words(prev)[2..].to_vec());
}

#[test]
fn words_are_split_at_white_space() {
    assert_eq!(split_words(""), Vec::<String>::new());
    assert_eq!(split_words(" \n\t"), Vec::<String>::new());
    assert_eq!(split_words("\u{3000}één  twee\u{2028}3"), vec!["één", "twee", "3"]);
}

#[test]
fn words_agree_with_the_standard_library() {
    for text in ["a", " a b ", "x\u{85}y\u{1680}z", "\u{200b}q\u{feff} r", "a\r\nb\u{b}c\u{c}d"] {
        let expected: Vec<&str> = text.split_whitespace().collect();
        assert_eq!(split_words(text), expected);
    }
}

#[test]
fn white_space_agrees_with_the_standard_library() {
    for n in 0..=0x10_ffffu32 {
        if let Some(c) = char::from_u32(n) {
            assert_eq!(white_space(c), c.is_whitespace(), "{:x}", n);
        }
    }
}

#[test]
fn words_keep_every_visible_character() {
    let text = " a bc\u{2009}d\te ";
    let visible: String = text.chars().filter(|c| !c.is_whitespace()).collect();
    assert_eq!(split_words(text).concat(), visible);
}

#[test]
fn joined_words_split_again() {
    let rest = dedup_overlap("a", "a  b\n c d");
    assert_eq!(rest, "b c d");
    assert_eq!(split_words(&rest), vec!["b", "c", "d"]);
}
