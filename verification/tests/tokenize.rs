use ft_filter::tokenize::{fasttext_hash, get_subword_hashes, tokens};

#[test]
fn hash_reference_vectors() {
    assert_eq!(fasttext_hash(b"hello"), 1335831723);
    assert_eq!(fasttext_hash(b"<the>"), 4243648960);
    assert_eq!(fasttext_hash(b"\xff"), 4193493326);
}

#[test]
fn subwords_include_whole_word_but_not_single_boundaries() {
    let mut ids = get_subword_hashes("é", 0, 3, 2_000_000);
    let expected: Vec<_> = ["<é", "<é>", "é", "é>"]
        .iter()
        .map(|s| fasttext_hash(s.as_bytes()) as usize % 2_000_000)
        .collect();
    assert_eq!(ids, expected);
    ids.clear();
    ids = get_subword_hashes("</s>", 1, 6, 2_000_000);
    assert!(ids.is_empty());
}

#[test]
fn ascii_separators_only() {
    assert_eq!(
        tokens("a\0b\tc\nd\re\u{000b}f\u{000c}g a\u{00a0}b hi,there"),
        ["a", "b", "c", "d", "e", "f", "g", "a\u{00a0}b", "hi,there"]
    );
}

#[test]
fn empty_hash_is_offset_basis() {
    assert_eq!(fasttext_hash(b""), 2166136261);
}

#[test]
fn tokens_drop_empty_runs() {
    assert_eq!(tokens("  lead\t\ttrail  "), ["lead", "trail"]);
    assert!(tokens("").is_empty());
    assert!(tokens(" \n\r\t").is_empty());
}

#[test]
fn newline_is_a_separator_like_space() {
    assert_eq!(tokens("one\ntwo three"), tokens("one two three"));
}

#[test]
fn subwords_of_ascii_word() {
    // "ab" padded is "<ab>": n-grams of 2..=3 characters.
    let ids = get_subword_hashes("ab", 2, 3, 1000);
    let expected: Vec<usize> = ["<a", "<ab", "ab", "ab>", "b>"]
        .iter()
        .map(|s| fasttext_hash(s.as_bytes()) as usize % 1000)
        .collect();
    assert_eq!(ids, expected);
}

#[test]
fn subwords_none_when_disabled() {
    assert!(get_subword_hashes("word", 0, 0, 100).is_empty());
    assert!(get_subword_hashes("word", 4, 3, 100).is_empty());
    assert!(get_subword_hashes("word", 1, 3, 0).is_empty());
}

#[test]
fn subword_ids_below_bucket() {
    for id in get_subword_hashes("quality", 1, 6, 7) {
        assert!(id < 7);
    }
}
