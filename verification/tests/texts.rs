//! Strings: widths, slices, order and search.

use vesper::text::{
    chars_of, contains_str, len_utf16, len_utf8, same_str, str_before, str_len, trim,
};

#[test]
fn character_widths_match_their_encodings() {
    for c in ['a', '\u{7f}', '\u{80}', 'é', '\u{7ff}', '\u{800}', '€', '\u{ffff}', '\u{10000}', '😀'] {
        assert_eq!(len_utf8(c), c.len_utf8());
        assert_eq!(len_utf16(c) as usize, c.len_utf16());
    }
}

#[test]
fn lengths_count_bytes() {
    assert_eq!(str_len(""), 0);
    assert_eq!(str_len("café"), 5);
}

#[test]
fn trimming_drops_space_at_both_ends() {
    for s in ["", " ", "a", " a ", "\t\na b\r\n", "\u{a0}x\u{3000}", "\u{2003}", "x\u{200b}"] {
        assert_eq!(trim(s), s.trim(), "{s:?}");
    }
}

#[test]
fn equality_is_by_characters() {
    assert!(same_str("", ""));
    assert!(same_str("dusk", "dusk"));
    assert!(!same_str("dusk", "Dusk"));
    assert!(!same_str("dusk", "dus"));
    assert!(!same_str("é", "e"));
}

#[test]
fn texts_sort_as_std_sorts_them() {
    let all = ["", "a", "ab", "b", "B", "é", "z", "😀", "\u{ffff}", "file:///a", "file:///b"];
    for a in all {
        for b in all {
            assert_eq!(str_before(a, b), a < b, "{a} {b}");
        }
    }
}

#[test]
fn a_part_is_found_where_std_finds_it() {
    let all = ["", "o", "oo", "foo", "foobar", "bar", "ob", "é", "caféx", "oof"];
    for a in all {
        for b in all {
            assert_eq!(contains_str(a, b), a.contains(b), "{a} {b}");
        }
    }
}

#[test]
fn characters_come_in_order() {
    assert_eq!(chars_of("aé😀"), vec!['a', 'é', '😀']);
}
