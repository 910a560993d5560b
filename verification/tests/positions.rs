//! Byte offsets and protocol positions.

use vesper::document::Document;
use vesper::position::LineIndex;
use vesper::protocol::{Position, Range};

#[test]
fn maps_offsets_on_a_single_line() {
    let text = "func main";
    let index = LineIndex::new(text);
    assert_eq!(index.position(text, 0), Position::new(0, 0));
    assert_eq!(index.position(text, 5), Position::new(0, 5));
}

#[test]
fn maps_offsets_across_lines() {
    let text = "ab\ncd\n";
    let index = LineIndex::new(text);
    assert_eq!(index.position(text, 0), Position::new(0, 0));
    assert_eq!(index.position(text, 3), Position::new(1, 0));
    assert_eq!(index.position(text, 4), Position::new(1, 1));
}

#[test]
fn counts_columns_in_utf16_code_units() {
    // The e with an acute accent is one UTF-16 unit but two UTF-8 bytes, so
    // the byte offset after it is 5 while the column is 4.
    let text = "café";
    let index = LineIndex::new(text);
    assert_eq!(index.position(text, 5), Position::new(0, 4));
    let after_e = "caf".len() as u32 + "é".len() as u32;
    assert_eq!(index.position(text, after_e), Position::new(0, 4));
}

#[test]
fn a_position_round_trips_to_its_offset() {
    let text = "one\ntwo\nthree";
    let index = LineIndex::new(text);
    for off in [0u32, 2, 4, 7, 8, 12] {
        let pos = index.position(text, off);
        assert_eq!(index.offset(text, pos), off, "offset {off} did not round trip");
    }
}

#[test]
fn an_offset_inside_a_character_does_not_panic() {
    // The lexer can report a span whose end lands between the two bytes of a
    // multibyte character, as it does for a bad escape before an accented
    // letter. The offset must snap back to the character start.
    let text = "é";
    let index = LineIndex::new(text);
    assert_eq!(index.position(text, 1), Position::new(0, 0));
    assert_eq!(index.position(text, 2), Position::new(0, 1));
}

#[test]
fn out_of_range_positions_clamp() {
    let text = "hi\n";
    let index = LineIndex::new(text);
    assert_eq!(index.offset(text, Position::new(99, 0)), text.len() as u32);
    assert_eq!(index.offset(text, Position::new(0, 99)), 2);
}

#[test]
fn an_offset_past_the_end_is_the_end() {
    let text = "ab\ncd";
    let index = LineIndex::new(text);
    assert_eq!(index.position(text, 5), Position::new(1, 2));
    assert_eq!(index.position(text, 6), Position::new(1, 2));
    assert_eq!(index.position(text, u32::MAX), Position::new(1, 2));
}

#[test]
fn the_empty_text_has_one_place() {
    let index = LineIndex::new("");
    assert_eq!(index.position("", 0), Position::new(0, 0));
    assert_eq!(index.position("", 7), Position::new(0, 0));
    assert_eq!(index.offset("", Position::new(0, 0)), 0);
    assert_eq!(index.offset("", Position::new(3, 3)), 0);
}

#[test]
fn a_character_outside_the_basic_plane_is_two_units() {
    let text = "a😀b\nc";
    let index = LineIndex::new(text);
    assert_eq!(index.position(text, 1), Position::new(0, 1));
    assert_eq!(index.position(text, 3), Position::new(0, 1));
    assert_eq!(index.position(text, 5), Position::new(0, 3));
    assert_eq!(index.position(text, 6), Position::new(0, 4));
    assert_eq!(index.position(text, 7), Position::new(1, 0));
    assert_eq!(index.offset(text, Position::new(0, 1)), 1);
    assert_eq!(index.offset(text, Position::new(0, 3)), 5);
    // A column that splits the pair names the character after it.
    assert_eq!(index.offset(text, Position::new(0, 2)), 5);
}

#[test]
fn every_character_start_round_trips() {
    let text = "é\nx😀\n\nyz";
    let index = LineIndex::new(text);
    let mut last = Position::new(0, 0);
    for (off, _) in text.char_indices() {
        let pos = index.position(text, off as u32);
        assert_eq!(index.offset(text, pos), off as u32);
        assert_eq!(index.position(text, index.offset(text, pos)), pos);
        assert!((last.line, last.character) <= (pos.line, pos.character));
        last = pos;
    }
    let end = index.position(text, text.len() as u32);
    assert_eq!(end, Position::new(3, 2));
    assert_eq!(index.offset(text, end), text.len() as u32);
}

#[test]
fn a_carriage_return_belongs_to_its_line() {
    let text = "a\r\nb";
    let index = LineIndex::new(text);
    assert_eq!(index.position(text, 2), Position::new(0, 2));
    assert_eq!(index.position(text, 3), Position::new(1, 0));
}

#[test]
fn a_document_keeps_its_text_version_and_lines() {
    let doc = Document::new("ab\ncd".to_string(), 7);
    assert_eq!(doc.text, "ab\ncd");
    assert_eq!(doc.version, 7);
    assert_eq!(doc.index.position(&doc.text, 4), Position::new(1, 1));
    assert_eq!(doc.snapshot(), ("ab\ncd".to_string(), 7));
}

#[test]
fn ranges_hold_their_ends() {
    let r = Range::new(Position::new(1, 2), Position::new(3, 4));
    assert_eq!(r.start, Position::new(1, 2));
    assert_eq!(r.end, Position::new(3, 4));
}
