use scream::text::{
    decode, find, is_white, next_word, same, same_ignoring_case, split_after_last, split_before,
    split_once, string_of, strip_prefix, strip_suffix, stripped_end, stripped_start, to_lowercase,
    trimmed,
};

#[test]
fn white_space_is_that_of_unicode() {
    for u in 0..=0x10_ffffu32 {
        if let Some(c) = char::from_u32(u) {
            assert_eq!(is_white(c), c.is_whitespace(), "{u:x}");
        }
    }
}

#[test]
fn trimming_takes_white_space_off_both_ends() {
    assert_eq!(trimmed("\u{a0} \ta b\u{2003}\r\n"), "a b");
    assert_eq!(trimmed(" \n "), "");
    assert_eq!(stripped_start("\"\"a\"", '"'), "a\"");
    assert_eq!(stripped_end("http://x//", '/'), "http://x");
}

#[test]
fn only_ascii_letters_are_folded() {
    assert_eq!(to_lowercase("ÄBC-Z"), "Äbc-z");
    assert!(same_ignoring_case("sT", "St"));
    assert!(!same_ignoring_case("É", "é"));
    assert!(same("é", "é"));
    assert!(!same("a", "ab"));
}

#[test]
fn texts_are_split_at_characters() {
    assert_eq!(split_before("a?b?c", '?'), "a");
    assert_eq!(split_before("abc", '?'), "abc");
    assert_eq!(split_once("é:ü:x", ':'), Some(("é", "ü:x")));
    assert_eq!(split_once("abc", ':'), None);
    assert_eq!(split_after_last("a#b#c", '#'), "c");
    assert_eq!(split_after_last("abc", '#'), "abc");
    assert_eq!(next_word(" \t GET /x"), Some(("GET", " /x")));
    assert_eq!(next_word(" \r\n"), None);
    assert_eq!(strip_prefix("/hls/1", "/hls/"), Some("1"));
    assert_eq!(strip_prefix("/hl", "/hls/"), None);
    assert_eq!(strip_suffix("1.ts", ".ts"), Some("1"));
    assert_eq!(strip_suffix("ts", ".ts"), None);
}

#[test]
fn patterns_are_found() {
    let text: Vec<char> = "aabaab".chars().collect();
    let pattern: Vec<char> = "aab".chars().collect();
    assert_eq!(find(&text, &pattern, 0), Some(0));
    assert_eq!(find(&text, &pattern, 1), Some(3));
    assert_eq!(find(&text, &pattern, 4), None);
    assert_eq!(string_of(&['é', 'x']), "éx");
}

#[test]
fn only_utf8_is_text() {
    assert_eq!(decode("日本".as_bytes()), Some("日本"));
    assert_eq!(decode(b""), Some(""));
    assert_eq!(decode(b"\xff"), None);
    assert_eq!(decode(b"\xc0\x80"), None);
    assert_eq!(decode(b"\xed\xa0\x80"), None);
    assert_eq!(decode(b"\xe6\x97"), None);
}
