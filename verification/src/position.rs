//! Position conversion between the compiler and the protocol. The dusk compiler
//! reports spans as byte offsets into a file. The Language Server Protocol wants
//! a line and a character, where the character counts UTF-16 code units by
//! default. This module bridges the two.

use vstd::prelude::*;
#[allow(unused_imports)]
use vstd::std_specs::iter::IteratorSpec;
#[allow(unused_imports)]
use vstd::utf8::encode_utf8;

use crate::protocol::Position;
use crate::text::{len_utf16, len_utf8, str_len, tail_from};
#[allow(unused_imports)]
use crate::text::{
    byte_len, byte_offset, char_at, code_units, law_an_offset_is_the_length_before_it,
    law_code_units_add_up, lemma_byte_offset_grows, lemma_char_at_unique, lemma_char_floor,
    lemma_units_split, lemma_units_within_bytes, utf16_units, utf16_width,
};

verus! {

/// The newlines among the first `k` characters, which is the line character `k`
/// is on.
pub open spec fn line_of(s: Seq<char>, k: int) -> nat
    decreases k,
{
    if k <= 0 {
        0
    } else {
        line_of(s, k - 1) + if s[k - 1] == '\n' { 1nat } else { 0nat }
    }
}

/// The lines a text holds. Every text has at least one.
pub open spec fn line_count(s: Seq<char>) -> nat {
    line_of(s, s.len() as int) + 1
}

/// The first character index at or before `k` that is on line `line` or later.
pub open spec fn head_up_to(s: Seq<char>, line: int, k: int) -> int
    decreases k,
{
    if k <= 0 {
        0
    } else if line_of(s, k - 1) >= line {
        head_up_to(s, line, k - 1)
    } else {
        k
    }
}

/// The character index a line starts at.
pub open spec fn line_head(s: Seq<char>, line: int) -> int {
    head_up_to(s, line, s.len() as int)
}

/// The last character index at or before `k` that is on line `line` or earlier.
pub open spec fn tail_up_to(s: Seq<char>, line: int, k: int) -> int
    decreases k,
{
    if k <= 0 {
        0
    } else if line_of(s, k) <= line {
        k
    } else {
        tail_up_to(s, line, k - 1)
    }
}

/// The character index a line ends at, where its newline or the end of the text
/// sits.
pub open spec fn line_tail(s: Seq<char>, line: int) -> int {
    tail_up_to(s, line, s.len() as int)
}

/// The line and column, in UTF-16 code units, of character `k`.
pub open spec fn place_of(s: Seq<char>, k: int) -> Position {
    let line = line_of(s, k);
    Position {
        line: line as u32,
        character: utf16_units(s, line_head(s, line as int), k) as u32,
    }
}

/// The protocol position of a byte offset: the place of the character the
/// offset falls in.
pub open spec fn position_of(s: Seq<char>, off: int) -> Position {
    place_of(s, char_at(s, off))
}

/// The character reached from `k` by spending `units` code units without going
/// past `end`. A character that starts before the units run out is passed whole.
pub open spec fn walk(s: Seq<char>, k: int, end: int, units: int) -> int
    decreases end - k,
{
    if k >= end || units <= 0 {
        k
    } else {
        walk(s, k + 1, end, units - utf16_width(s[k]))
    }
}

/// The character a protocol position names. A line past the last one names the
/// end of the text, and a column past the end of its line names that end.
pub open spec fn char_of(s: Seq<char>, pos: Position) -> int {
    if pos.line >= line_count(s) {
        s.len() as int
    } else {
        walk(
            s,
            line_head(s, pos.line as int),
            line_tail(s, pos.line as int),
            pos.character as int,
        )
    }
}

/// The byte offset a protocol position names.
pub open spec fn offset_of(s: Seq<char>, pos: Position) -> nat {
    byte_offset(s, char_of(s, pos))
}

/// Whether every byte offset into a text fits the compiler's and the protocol's
/// 32 bit numbers.
pub open spec fn fits(s: Seq<char>) -> bool {
    byte_len(s) <= u32::MAX
}

/// Lines never decrease along a text.
pub proof fn lemma_line_of_grows(s: Seq<char>, i: int, j: int)
    requires
        0 <= i <= j,
    ensures
        line_of(s, i) <= line_of(s, j) <= line_of(s, i) + (j - i),
    decreases j - i,
{
    if i < j {
        lemma_line_of_grows(s, i, j - 1);
    }
}

/// A line starts at its first character.
proof fn lemma_head_up_to(s: Seq<char>, line: int, k: int)
    requires
        0 <= k,
        0 <= line <= line_of(s, k),
    ensures
        0 <= head_up_to(s, line, k) <= k,
        line_of(s, head_up_to(s, line, k)) == line,
        head_up_to(s, line, k) > 0 ==> line_of(s, head_up_to(s, line, k) - 1) < line,
    decreases k,
{
    if k > 0 && line_of(s, k - 1) >= line {
        lemma_head_up_to(s, line, k - 1);
    }
}

/// A line ends at its last character.
proof fn lemma_tail_up_to(s: Seq<char>, line: int, k: int)
    requires
        0 <= k,
        0 <= line,
    ensures
        0 <= tail_up_to(s, line, k) <= k,
        line_of(s, tail_up_to(s, line, k)) <= line,
        tail_up_to(s, line, k) < k ==> line_of(s, tail_up_to(s, line, k) + 1) > line,
    decreases k,
{
    if k > 0 && line_of(s, k) > line {
        lemma_tail_up_to(s, line, k - 1);
    }
}

/// The head of a line is the first character index on it, and its tail the last.
pub proof fn lemma_line_bounds(s: Seq<char>, line: int)
    requires
        0 <= line < line_count(s),
    ensures
        0 <= line_head(s, line) <= line_tail(s, line) <= s.len(),
        line_of(s, line_head(s, line)) == line,
        line_of(s, line_tail(s, line)) == line,
        forall|k: int|
            0 <= k <= s.len() ==> (#[trigger] line_of(s, k) == line <==> line_head(s, line) <= k
                <= line_tail(s, line)),
        line_tail(s, line) < s.len() ==> s[line_tail(s, line)] == '\n' && line + 1 < line_count(s)
            && line_head(s, line + 1) == line_tail(s, line) + 1,
        line + 1 < line_count(s) ==> line_tail(s, line) < s.len(),
{
    let n = s.len() as int;
    let h = line_head(s, line);
    let t = line_tail(s, line);
    lemma_head_up_to(s, line, n);
    lemma_tail_up_to(s, line, n);
    if t < h {
        lemma_line_of_grows(s, t + 1, h);
    }
    lemma_line_of_grows(s, h, t);
    assert forall|k: int| 0 <= k <= n implies (#[trigger] line_of(s, k) == line <==> h <= k
        <= t) by {
        if k < h {
            lemma_line_of_grows(s, k, h - 1);
        } else if t < k {
            lemma_line_of_grows(s, t + 1, k);
        } else {
            lemma_line_of_grows(s, h, k);
            lemma_line_of_grows(s, k, t);
        }
    }
    if t < n {
        lemma_line_of_grows(s, t + 1, n);
        lemma_head_up_to(s, line + 1, n);
        let h2 = line_head(s, line + 1);
        if h2 < t + 1 {
            lemma_line_of_grows(s, h2, t);
        } else if t + 1 < h2 {
            lemma_line_of_grows(s, t + 1, h2 - 1);
        }
    }
}

/// A line map for one source string: the byte offset each line starts at. A
/// byte offset finds its line by binary search, then its column by counting
/// UTF-16 code units from the line start.
#[derive(Debug)]
pub struct LineIndex {
    starts: Vec<u32>,
}

impl LineIndex {
    /// The byte offset each line starts at.
    pub closed spec fn view(&self) -> Seq<u32> {
        self.starts@
    }

    /// Whether this is the line map of `s`.
    pub open spec fn maps(&self, s: Seq<char>) -> bool {
        &&& fits(s)
        &&& self@.len() == line_count(s)
        &&& forall|line: int|
            0 <= line < line_count(s) ==> #[trigger] self@[line] == byte_offset(
                s,
                line_head(s, line),
            )
    }

    /// Builds the line map for `text`.
    pub fn new(text: &str) -> (index: LineIndex)
        requires
            fits(text@),
        ensures
            index.maps(text@),
    {
        let ghost s = text@;
        let mut starts: Vec<u32> = Vec::new();
        starts.push(0);
        let mut off: u32 = 0;
        let mut it = text.chars();
        let ghost mut k: int = 0;
        proof {
            lemma_line_of_grows(s, 0, s.len() as int);
            lemma_head_up_to(s, 0, s.len() as int);
            lemma_head_zero(s, s.len() as int);
        }
        loop
            invariant_except_break
                0 <= k <= s.len(),
                it.remaining() == s.skip(k),
                fits(s),
                off == byte_offset(s, k),
                starts@.len() == line_of(s, k) + 1,
                forall|line: int|
                    0 <= line <= line_of(s, k) ==> #[trigger] starts@[line] == byte_offset(
                        s,
                        line_head(s, line),
                    ),
            ensures
                k == s.len(),
                starts@.len() == line_of(s, k) + 1,
                forall|line: int|
                    0 <= line <= line_of(s, k) ==> #[trigger] starts@[line] == byte_offset(
                        s,
                        line_head(s, line),
                    ),
            decreases s.len() - k,
        {
            match it.next() {
                Some(c) => {
                    proof {
                        assert(c == s[k]);
                        lemma_byte_offset_grows(s, k + 1, s.len() as int);
                        k = k + 1;
                    }
                    off += len_utf8(c) as u32;
                    if c == '\n' {
                        proof {
                            lemma_head_found(s, line_of(s, k) as int, k, s.len() as int);
                        }
                        starts.push(off);
                    }
                },
                None => {
                    break;
                },
            }
        }
        LineIndex { starts }
    }

    /// The line a byte offset is on: the last one that starts at or before it.
    fn line_at(&self, off: u32) -> (line: usize)
        requires
            self@.len() > 0,
            self@[0] == 0,
        ensures
            line < self@.len(),
            self@[line as int] <= off,
            line + 1 < self@.len() ==> off < self@[line + 1],
    {
        let mut lo: usize = 0;
        let mut hi: usize = self.starts.len();
        while lo + 1 < hi
            invariant
                lo < hi <= self@.len(),
                self@[lo as int] <= off,
                hi < self@.len() ==> off < self@[hi as int],
            decreases hi - lo,
        {
            let mid: usize = lo + (hi - lo) / 2;
            if self.starts[mid] <= off {
                lo = mid;
            } else {
                hi = mid;
            }
        }
        lo
    }

    /// Maps a byte offset into `text` to a protocol position. An offset past the
    /// end of the text clamps to the end, and an offset that lands inside a
    /// multibyte character snaps back to that character's start, so a span the
    /// lexer reports mid character never panics.
    pub fn position(&self, text: &str, offset: u32) -> (pos: Position)
        requires
            self.maps(text@),
        ensures
            pos == position_of(text@, offset as int),
            pos.line == line_of(text@, char_at(text@, offset as int)),
            pos.character == utf16_units(
                text@,
                line_head(text@, pos.line as int),
                char_at(text@, offset as int),
            ),
    {
        let ghost s = text@;
        proof {
            lemma_head_zero(s, s.len() as int);
        }
        let line: usize = self.line_at(offset);
        let start: u32 = self.starts[line];
        let ghost head = line_head(s, line as int);
        proof {
            lemma_line_bounds(s, line as int);
            lemma_line_of_grows(s, 0, s.len() as int);
            lemma_byte_offset_grows(s, 0, s.len() as int);
        }
        let rest = tail_from(text, start as usize, Ghost(head));
        let mut off: u32 = start;
        let mut col: u32 = 0;
        let mut it = rest.chars();
        let ghost mut k: int = head;
        proof {
            assert(s.skip(head) == rest@);
        }
        loop
            invariant_except_break
                head <= k <= s.len(),
                it.remaining() == s.skip(k),
            invariant
                self.maps(s),
                head == line_head(s, line as int),
                0 <= head,
                line < line_count(s),
                line + 1 < line_count(s) ==> offset < self@[line + 1],
                head <= k <= s.len(),
                off == byte_offset(s, k),
                off <= offset,
                col == utf16_units(s, head, k),
                line_of(s, k) == line,
            ensures
                k < s.len() ==> offset < byte_offset(s, k + 1),
            decreases s.len() - k,
        {
            match it.next() {
                Some(c) => {
                    proof {
                        assert(c == s[k]);
                        lemma_byte_offset_grows(s, k + 1, s.len() as int);
                        lemma_units_within_bytes(s, head, k + 1);
                    }
                    let next: u32 = off + len_utf8(c) as u32;
                    if next > offset {
                        break;
                    }
                    proof {
                        if c == '\n' {
                            lemma_line_of_grows(s, k + 1, s.len() as int);
                            lemma_head_found(s, line + 1, k + 1, s.len() as int);
                        }
                        k = k + 1;
                        assert(s.skip(k - 1).drop_first() =~= s.skip(k));
                    }
                    off = next;
                    col += len_utf16(c);
                },
                None => {
                    break;
                },
            }
        }
        proof {
            lemma_char_at_unique(s, offset as int, k);
            lemma_byte_offset_grows(s, k, s.len() as int);
            lemma_line_of_grows(s, 0, k);
        }
        Position::new(line as u32, col)
    }

    /// Maps a protocol position back to a byte offset into `text`. A line or
    /// character past the content clamps to the nearest boundary, so an out of
    /// range request never panics.
    pub fn offset(&self, text: &str, pos: Position) -> (off: u32)
        requires
            self.maps(text@),
        ensures
            off == offset_of(text@, pos),
    {
        let ghost s = text@;
        let line: usize = pos.line as usize;
        if line >= self.starts.len() {
            return str_len(text) as u32;
        }
        let ghost head = line_head(s, line as int);
        let ghost tail = line_tail(s, line as int);
        proof {
            lemma_line_bounds(s, line as int);
            lemma_byte_offset_grows(s, head, tail);
            lemma_byte_offset_grows(s, tail, s.len() as int);
        }
        let start: u32 = self.starts[line];
        // Drop the newline that ends the line, so a column never lands on it.
        let end: u32 = if line + 1 < self.starts.len() {
            self.starts[line + 1] - 1
        } else {
            str_len(text) as u32
        };
        assert(end == byte_offset(s, tail));
        let rest = tail_from(text, start as usize, Ghost(head));
        let mut off: u32 = start;
        let mut left: u32 = pos.character;
        let mut it = rest.chars();
        let ghost mut k: int = head;
        while off < end && left > 0
            invariant
                fits(s),
                0 <= head <= k <= tail <= s.len(),
                it.remaining() == s.skip(k),
                off == byte_offset(s, k),
                end == byte_offset(s, tail),
                walk(s, head, tail, pos.character as int) == walk(s, k, tail, left as int),
            decreases s.len() - k,
        {
            proof {
                if k >= tail {
                    lemma_byte_offset_grows(s, tail, k);
                }
            }
            match it.next() {
                Some(c) => {
                    proof {
                        assert(c == s[k]);
                        lemma_byte_offset_grows(s, k + 1, s.len() as int);
                        assert(s.skip(k).drop_first() =~= s.skip(k + 1));
                        lemma_walk_spent(s, k + 1, tail, left - utf16_width(c));
                        k = k + 1;
                    }
                    off += len_utf8(c) as u32;
                    let units: u32 = len_utf16(c);
                    left = if left >= units {
                        left - units
                    } else {
                        0
                    };
                },
                None => {
                    assert(false);
                },
            }
        }
        proof {
            if k < tail {
                lemma_byte_offset_grows(s, k + 1, tail);
            }
        }
        off
    }
}

/// With no units left to spend a walk stays where it is.
proof fn lemma_walk_spent(s: Seq<char>, k: int, end: int, units: int)
    ensures
        units <= 0 ==> walk(s, k, end, units) == walk(s, k, end, 0),
{
}

/// The first line starts the text.
proof fn lemma_head_zero(s: Seq<char>, k: int)
    requires
        0 <= k,
    ensures
        head_up_to(s, 0, k) == 0,
    decreases k,
{
    if k > 0 {
        lemma_head_zero(s, k - 1);
    }
}

/// The character after a line's opening newline is its head.
proof fn lemma_head_found(s: Seq<char>, line: int, k: int, n: int)
    requires
        0 < k <= n,
        line_of(s, k) == line,
        line_of(s, k - 1) < line,
    ensures
        head_up_to(s, line, n) == k,
    decreases n,
{
    if k < n {
        lemma_line_of_grows(s, k, n - 1);
        lemma_head_found(s, line, k, n - 1);
    }
}

/// Spending exactly the units between two characters of a line walks from the
/// one to the other.
proof fn lemma_walk_to(s: Seq<char>, j: int, k: int, end: int)
    requires
        0 <= j <= k <= end <= s.len(),
    ensures
        walk(s, j, end, utf16_units(s, j, k) as int) == k,
    decreases k - j,
{
    if j < k {
        lemma_units_split(s, j, j + 1, k);
        assert(utf16_units(s, j, j + 1) == utf16_units(s, j, j) + utf16_width(s[j]));
        lemma_walk_to(s, j + 1, k, end);
    }
}

/// A walk stays between where it starts and the end it may not pass.
proof fn lemma_walk_bounds(s: Seq<char>, k: int, end: int, units: int)
    requires
        k <= end,
    ensures
        k <= walk(s, k, end, units) <= end,
    decreases end - k,
{
    if k < end && units > 0 {
        lemma_walk_bounds(s, k + 1, end, units - utf16_width(s[k]));
    }
}

/// A walk with more units than the line holds ends at its end.
proof fn lemma_walk_past(s: Seq<char>, k: int, end: int, units: int)
    requires
        0 <= k <= end <= s.len(),
        utf16_units(s, k, end) <= units,
    ensures
        walk(s, k, end, units) == end,
    decreases end - k,
{
    if k < end {
        lemma_units_split(s, k, k + 1, end);
        assert(utf16_units(s, k, k + 1) == utf16_units(s, k, k) + utf16_width(s[k]));
        lemma_walk_past(s, k + 1, end, units - utf16_width(s[k]));
    }
}

/// The place of a character fits the protocol's numbers, and names that
/// character.
proof fn lemma_place_of(s: Seq<char>, k: int)
    requires
        fits(s),
        0 <= k <= s.len(),
    ensures
        line_of(s, k) < line_count(s),
        place_of(s, k).line == line_of(s, k),
        place_of(s, k).character == utf16_units(s, line_head(s, line_of(s, k) as int), k),
        char_of(s, place_of(s, k)) == k,
{
    let n = s.len() as int;
    let line = line_of(s, k) as int;
    lemma_line_of_grows(s, k, n);
    lemma_line_of_grows(s, 0, k);
    lemma_line_bounds(s, line);
    let head = line_head(s, line);
    lemma_byte_offset_grows(s, 0, n);
    lemma_byte_offset_grows(s, 0, head);
    lemma_byte_offset_grows(s, k, n);
    lemma_units_within_bytes(s, head, k);
    lemma_walk_to(s, head, k, line_tail(s, line));
}

/// A byte offset round trips through its position. An offset where a character
/// starts, or the end of the text, comes back unchanged; any other comes back as
/// the start of the character it falls in.
pub proof fn law_offset_round_trips(s: Seq<char>, off: int)
    requires
        fits(s),
        0 <= off,
    ensures
        offset_of(s, position_of(s, off)) == byte_offset(s, char_at(s, off)),
        offset_of(s, position_of(s, off)) <= off,
        forall|k: int|
            0 <= k <= s.len() && off == #[trigger] byte_offset(s, k) ==> offset_of(
                s,
                position_of(s, off),
            ) == off,
{
    lemma_char_floor(s, off, s.len() as int);
    lemma_place_of(s, char_at(s, off));
    assert forall|k: int| 0 <= k <= s.len() && off == #[trigger] byte_offset(s, k) implies offset_of(
        s,
        position_of(s, off),
    ) == off by {
        if k < s.len() {
            lemma_byte_offset_grows(s, k, k + 1);
        }
        lemma_char_at_unique(s, off, k);
    }
}

/// A position that names a character round trips through its byte offset.
pub proof fn law_position_round_trips(s: Seq<char>, k: int)
    requires
        fits(s),
        0 <= k <= s.len(),
    ensures
        position_of(s, offset_of(s, place_of(s, k)) as int) == place_of(s, k),
{
    lemma_place_of(s, k);
    if k < s.len() {
        lemma_byte_offset_grows(s, k, k + 1);
    }
    lemma_char_at_unique(s, byte_offset(s, k) as int, k);
}

/// An offset past the end of the text has the position of the end.
pub proof fn law_offset_past_the_end_clamps(s: Seq<char>, off: int)
    requires
        byte_len(s) <= off,
    ensures
        position_of(s, off) == position_of(s, byte_len(s) as int),
{
    lemma_char_at_unique(s, off, s.len() as int);
    lemma_char_at_unique(s, byte_len(s) as int, s.len() as int);
}

/// A position never names an offset outside the text, nor one inside a
/// character. A line past the last one names the end of the text, and a column
/// past the end of its line names the end of that line.
pub proof fn law_position_out_of_range_clamps(s: Seq<char>, pos: Position)
    ensures
        0 <= char_of(s, pos) <= s.len(),
        offset_of(s, pos) <= byte_len(s),
        pos.line >= line_count(s) ==> offset_of(s, pos) == byte_len(s),
        pos.line < line_count(s) ==> line_of(s, char_of(s, pos)) == pos.line,
        pos.line < line_count(s) && pos.character >= utf16_units(
            s,
            line_head(s, pos.line as int),
            line_tail(s, pos.line as int),
        ) ==> offset_of(s, pos) == byte_offset(s, line_tail(s, pos.line as int)),
{
    let n = s.len() as int;
    if pos.line < line_count(s) {
        let line = pos.line as int;
        lemma_line_bounds(s, line);
        let head = line_head(s, line);
        let tail = line_tail(s, line);
        lemma_walk_bounds(s, head, tail, pos.character as int);
        if pos.character >= utf16_units(s, head, tail) {
            lemma_walk_past(s, head, tail, pos.character as int);
        }
    }
    lemma_byte_offset_grows(s, char_of(s, pos), n);
}

/// Later offsets never have earlier positions.
pub proof fn law_positions_keep_offset_order(s: Seq<char>, a: int, b: int)
    requires
        fits(s),
        0 <= a <= b,
    ensures
        position_of(s, a).at_or_before(position_of(s, b)),
{
    let n = s.len() as int;
    lemma_char_floor(s, a, n);
    lemma_char_floor(s, b, n);
    let i = char_at(s, a);
    let j = char_at(s, b);
    if j < i {
        lemma_byte_offset_grows(s, j + 1, i);
    }
    lemma_place_of(s, i);
    lemma_place_of(s, j);
    lemma_line_of_grows(s, i, j);
    if line_of(s, i) == line_of(s, j) {
        lemma_line_bounds(s, line_of(s, i) as int);
        lemma_units_split(s, line_head(s, line_of(s, i) as int), i, j);
    }
}

/// How many line breaks a text has.
pub open spec fn newlines(s: Seq<char>) -> nat {
    s.filter_map(
        |c: char|
            if c == '\n' {
                Some(())
            } else {
                None
            },
    ).len()
}

proof fn lemma_newlines(s: Seq<char>, k: int)
    requires
        0 <= k <= s.len(),
    ensures
        line_of(s, k) == newlines(s.take(k)),
    decreases k,
{
    if k > 0 {
        lemma_newlines(s, k - 1);
        assert(s.take(k).drop_last() =~= s.take(k - 1));
        assert(s.take(k).last() == s[k - 1]);
    }
}

/// A run without a line break stays on its line.
proof fn lemma_same_line(s: Seq<char>, i: int, j: int)
    requires
        0 <= i <= j <= s.len(),
        forall|k: int| i <= k < j ==> #[trigger] s[k] != '\n',
    ensures
        line_of(s, j) == line_of(s, i),
    decreases j - i,
{
    if i < j {
        lemma_same_line(s, i, j - 1);
        assert(s[j - 1] != '\n');
    }
}

/// A line starts behind a line break, or where the text does.
proof fn lemma_head_at(s: Seq<char>, i: int)
    requires
        0 <= i <= s.len(),
        i > 0 ==> s[i - 1] == '\n',
    ensures
        line_of(s, i) < line_count(s),
        line_head(s, line_of(s, i) as int) == i,
{
    let line = line_of(s, i) as int;
    lemma_line_of_grows(s, i, s.len() as int);
    lemma_line_bounds(s, line);
    assert(line_of(s, i) == line);
    if i > 0 {
        assert(line_of(s, i - 1) == line - 1);
    }
}

/// The position of an offset that falls in a character counts the line breaks before
/// the character, and the code units between the last of them and the character.
pub proof fn law_a_position_counts_lines_and_code_units(
    s: Seq<char>,
    off: int,
    above: Seq<char>,
    before: Seq<char>,
    behind: Seq<char>,
)
    requires
        fits(s),
        s == above + before + behind,
        above.len() > 0 ==> above.last() == '\n',
        !before.contains('\n'),
        encode_utf8(above + before).len() <= off,
        behind.len() > 0 ==> off < encode_utf8((above + before).push(behind[0])).len(),
    ensures
        position_of(s, off).line == newlines(above),
        position_of(s, off).character == code_units(before),
{
    let i = above.len() as int;
    let k = i + before.len();
    assert(s.take(k) =~= above + before);
    law_an_offset_is_the_length_before_it(s, k);
    if behind.len() > 0 {
        assert(s.take(k + 1) =~= (above + before).push(behind[0]));
        law_an_offset_is_the_length_before_it(s, k + 1);
    }
    lemma_char_at_unique(s, off, k);
    lemma_place_of(s, k);
    assert forall|j: int| i <= j < k implies #[trigger] s[j] != '\n' by {
        assert(s[j] == before[j - i]);
        if s[j] == '\n' {
            assert(before.contains('\n'));
        }
    }
    lemma_same_line(s, i, k);
    assert(i > 0 ==> s[i - 1] == above.last());
    lemma_head_at(s, i);
    lemma_newlines(s, i);
    assert(s.take(i) =~= above);
    law_code_units_add_up(s, i, k);
    assert(s.subrange(i, k) =~= before);
}

/// The offset a position names is found on its own line: past as many line breaks as
/// the position has lines, it passes just the characters that start before the
/// position's code units run out, and none past the end of the line.
pub proof fn law_an_offset_is_found_on_its_line(
    s: Seq<char>,
    pos: Position,
    above: Seq<char>,
    line: Seq<char>,
    below: Seq<char>,
    j: int,
)
    requires
        s == above + line + below,
        above.len() > 0 ==> above.last() == '\n',
        !line.contains('\n'),
        below.len() > 0 ==> below[0] == '\n',
        pos.line == newlines(above),
        0 <= j <= line.len(),
        j > 0 ==> code_units(line.take(j - 1)) < pos.character,
        j < line.len() ==> pos.character <= code_units(line.take(j)),
    ensures
        offset_of(s, pos) == encode_utf8(above + line.take(j)).len(),
{
    let i = above.len() as int;
    let end = i + line.len();
    assert(i > 0 ==> s[i - 1] == above.last());
    lemma_head_at(s, i);
    lemma_newlines(s, i);
    assert(s.take(i) =~= above);
    assert forall|k: int| i <= k < end implies #[trigger] s[k] != '\n' by {
        assert(s[k] == line[k - i]);
        if s[k] == '\n' {
            assert(line.contains('\n'));
        }
    }
    lemma_same_line(s, i, end);
    lemma_line_bounds(s, pos.line as int);
    assert(line_of(s, end) == pos.line);
    if below.len() > 0 {
        assert(s[end] == '\n');
        assert(line_of(s, end + 1) == pos.line + 1);
    }
    assert(line_tail(s, pos.line as int) == end);
    law_code_units_add_up(s, i, i + j);
    assert(s.subrange(i, i + j) =~= line.take(j));
    if j > 0 {
        law_code_units_add_up(s, i, i + j - 1);
        assert(s.subrange(i, i + j - 1) =~= line.take(j - 1));
    }
    lemma_walk_steps(s, i, end, pos.character as int, j);
    law_an_offset_is_the_length_before_it(s, i + j);
    assert(s.take(i + j) =~= above + line.take(j));
}

proof fn lemma_walk_steps(s: Seq<char>, k: int, end: int, units: int, j: int)
    requires
        0 <= k <= k + j <= end <= s.len(),
        0 <= j,
        j > 0 ==> utf16_units(s, k, k + j - 1) < units,
        k + j < end ==> units <= utf16_units(s, k, k + j),
    ensures
        walk(s, k, end, units) == k + j,
    decreases j,
{
    assert(utf16_units(s, k, k) == 0);
    if j > 0 {
        let w = utf16_width(s[k]);
        assert(utf16_units(s, k, k + 1) == utf16_units(s, k, k) + w);
        lemma_units_split(s, k, k + 1, k + j);
        if j > 1 {
            lemma_units_split(s, k, k + 1, k + j - 1);
        }
        lemma_walk_steps(s, k + 1, end, units - w, j - 1);
    }
}

/// A position on a line the text does not have names the end of the text.
pub proof fn law_a_line_past_the_last_is_the_end(s: Seq<char>, pos: Position)
    requires
        pos.line > newlines(s),
    ensures
        offset_of(s, pos) == encode_utf8(s).len(),
{
    lemma_newlines(s, s.len() as int);
    assert(s.take(s.len() as int) =~= s);
    law_an_offset_is_the_length_before_it(s, s.len() as int);
}

} // verus!
