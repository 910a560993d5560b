//! How text is measured, ordered, and searched.
//!
//! A string is modelled as its sequence of characters. The compiler counts in
//! UTF-8 bytes and the protocol counts in UTF-16 code units, so this module
//! gives both measures of a character and of a run of characters, and ties the
//! byte measure to the bytes a string really holds.

use vstd::prelude::*;
#[allow(unused_imports)]
use vstd::std_specs::iter::IteratorSpec;
#[allow(unused_imports)]
use vstd::string::StringSliceAdditionalSpecFns;
#[allow(unused_imports)]
use vstd::utf8::*;

verus! {

/// The bytes a character takes in UTF-8.
pub open spec fn utf8_width(c: char) -> nat {
    if c as u32 <= 0x7f {
        1
    } else if c as u32 <= 0x7ff {
        2
    } else if c as u32 <= 0xffff {
        3
    } else {
        4
    }
}

/// The code units a character takes in UTF-16.
pub open spec fn utf16_width(c: char) -> nat {
    if c as u32 <= 0xffff {
        1
    } else {
        2
    }
}

/// The bytes the first `k` characters of `s` take.
pub open spec fn byte_offset(s: Seq<char>, k: int) -> nat
    decreases k,
{
    if k <= 0 {
        0
    } else {
        byte_offset(s, k - 1) + utf8_width(s[k - 1])
    }
}

/// The bytes `s` takes as a whole.
pub open spec fn byte_len(s: Seq<char>) -> nat {
    byte_offset(s, s.len() as int)
}

/// The UTF-16 code units the characters from `i` up to `j` take.
pub open spec fn utf16_units(s: Seq<char>, i: int, j: int) -> nat
    decreases j - i,
{
    if j <= i {
        0
    } else {
        utf16_units(s, i, j - 1) + utf16_width(s[j - 1])
    }
}

/// The character a byte offset falls in: the last character index that starts
/// at or before `off`, looking no further than index `k`.
pub open spec fn char_floor(s: Seq<char>, off: int, k: int) -> int
    decreases k,
{
    if k <= 0 {
        0
    } else if byte_offset(s, k) <= off {
        k
    } else {
        char_floor(s, off, k - 1)
    }
}

/// The character a byte offset into `s` falls in. An offset past the end falls
/// on the end.
pub open spec fn char_at(s: Seq<char>, off: int) -> int {
    char_floor(s, off, s.len() as int)
}

/// Offsets grow by at least one byte per character.
pub proof fn lemma_byte_offset_grows(s: Seq<char>, i: int, j: int)
    requires
        0 <= i <= j,
    ensures
        byte_offset(s, i) + (j - i) <= byte_offset(s, j),
    decreases j - i,
{
    if i < j {
        lemma_byte_offset_grows(s, i, j - 1);
    }
}

/// Dropping the first `k` characters moves every later offset back by the bytes
/// they took.
pub proof fn lemma_byte_offset_skip(s: Seq<char>, k: int, j: int)
    requires
        0 <= k,
        0 <= j,
        k + j <= s.len(),
    ensures
        byte_offset(s, k) + byte_offset(s.skip(k), j) == byte_offset(s, k + j),
    decreases j,
{
    if j > 0 {
        lemma_byte_offset_skip(s, k, j - 1);
        assert(s.skip(k)[j - 1] == s[k + j - 1]);
    }
}

/// Code units never outnumber bytes.
pub proof fn lemma_units_within_bytes(s: Seq<char>, i: int, j: int)
    requires
        0 <= i <= j,
    ensures
        byte_offset(s, i) + utf16_units(s, i, j) <= byte_offset(s, j),
    decreases j - i,
{
    if i < j {
        lemma_units_within_bytes(s, i, j - 1);
    }
}

/// Code unit counts of adjacent runs add up.
pub proof fn lemma_units_split(s: Seq<char>, i: int, m: int, j: int)
    requires
        i <= m <= j,
    ensures
        utf16_units(s, i, j) == utf16_units(s, i, m) + utf16_units(s, m, j),
    decreases j - m,
{
    if m < j {
        lemma_units_split(s, i, m, j - 1);
    }
}

/// What it means for `char_floor` to be right: it starts at or before the
/// offset, and the next character starts after it.
pub proof fn lemma_char_floor(s: Seq<char>, off: int, k: int)
    requires
        0 <= off,
        0 <= k,
    ensures
        0 <= char_floor(s, off, k) <= k,
        byte_offset(s, char_floor(s, off, k)) <= off,
        char_floor(s, off, k) < k ==> off < byte_offset(s, char_floor(s, off, k) + 1),
    decreases k,
{
    if k > 0 && byte_offset(s, k) > off {
        lemma_char_floor(s, off, k - 1);
    }
}

/// The floor is the only index with that property.
pub proof fn lemma_char_at_unique(s: Seq<char>, off: int, k: int)
    requires
        0 <= k <= s.len(),
        byte_offset(s, k) <= off,
        k < s.len() ==> off < byte_offset(s, k + 1),
    ensures
        char_at(s, off) == k,
{
    lemma_char_floor(s, off, s.len() as int);
    let c = char_at(s, off);
    if c < k {
        lemma_byte_offset_grows(s, c + 1, k);
    } else if k < c {
        lemma_byte_offset_grows(s, k + 1, c);
    }
}

/// The encoding of one character is as long as its width.
proof fn lemma_scalar_len(c: char)
    ensures
        encode_scalar(c as u32).len() == utf8_width(c),
{
    char_is_scalar(c);
}

/// The encoding of a string is as long as its characters' widths.
pub proof fn lemma_encode_len(s: Seq<char>)
    ensures
        encode_utf8(s).len() == byte_len(s),
    decreases s.len(),
{
    if s.len() > 0 {
        lemma_scalar_len(s[0]);
        lemma_encode_len(s.drop_first());
        assert(s.drop_first() =~= s.skip(1));
        lemma_byte_offset_skip(s, 1, s.len() - 1);
        assert(byte_offset(s, 1) == byte_offset(s, 0) + utf8_width(s[0]));
    }
}

/// A character index is a character boundary of the encoding, and what follows
/// it encodes the rest of the characters.
pub proof fn lemma_encode_at(s: Seq<char>, k: int)
    requires
        0 <= k <= s.len(),
    ensures
        is_char_boundary(encode_utf8(s), byte_offset(s, k) as int),
        byte_offset(s, k) <= encode_utf8(s).len(),
        encode_utf8(s).subrange(byte_offset(s, k) as int, encode_utf8(s).len() as int)
            == encode_utf8(s.skip(k)),
    decreases k,
{
    encode_utf8_valid_utf8(s);
    lemma_encode_len(s);
    lemma_byte_offset_grows(s, k, s.len() as int);
    if k == 0 {
        assert(s.skip(0) =~= s);
    } else {
        let rest = s.drop_first();
        lemma_encode_at(rest, k - 1);
        encode_utf8_first_scalar(s);
        lemma_scalar_len(s[0]);
        assert(rest =~= s.skip(1));
        lemma_byte_offset_skip(s, 1, k - 1);
        assert(byte_offset(s, 1) == byte_offset(s, 0) + utf8_width(s[0]));
        assert(pop_first_scalar(encode_utf8(s)) =~= encode_utf8(rest));
        assert(rest.skip(k - 1) =~= s.skip(k));
        let w = utf8_width(s[0]) as int;
        assert(encode_utf8(s).subrange(byte_offset(s, k) as int, encode_utf8(s).len() as int)
            =~= encode_utf8(rest).subrange(byte_offset(rest, k - 1) as int, encode_utf8(rest).len() as int));
    }
}

/// The bytes before a character index encode the characters before it.
pub proof fn lemma_encode_before(s: Seq<char>, k: int)
    requires
        0 <= k <= s.len(),
    ensures
        byte_offset(s, k) <= encode_utf8(s).len(),
        encode_utf8(s).subrange(0, byte_offset(s, k) as int) == encode_utf8(s.take(k)),
    decreases k,
{
    lemma_encode_len(s);
    lemma_byte_offset_grows(s, k, s.len() as int);
    if k == 0 {
        assert(s.take(0) =~= Seq::<char>::empty());
        assert(encode_utf8(s).subrange(0, 0) =~= Seq::<u8>::empty());
    } else {
        let rest = s.drop_first();
        lemma_encode_before(rest, k - 1);
        lemma_scalar_len(s[0]);
        assert(rest =~= s.skip(1));
        lemma_byte_offset_skip(s, 1, k - 1);
        assert(byte_offset(s, 1) == byte_offset(s, 0) + utf8_width(s[0]));
        assert(s.take(k).drop_first() =~= rest.take(k - 1));
        assert(encode_utf8(s).subrange(0, byte_offset(s, k) as int) =~= encode_utf8(s.take(k)));
    }
}

/// Two strings with the same encoding are the same string.
pub proof fn lemma_encode_injective(a: Seq<char>, b: Seq<char>)
    requires
        encode_utf8(a) == encode_utf8(b),
    ensures
        a == b,
{
    encode_utf8_decode_utf8(a);
    encode_utf8_decode_utf8(b);
}

/// The bytes a character takes in UTF-8.
pub fn len_utf8(c: char) -> (w: usize)
    ensures
        w == utf8_width(c),
{
    let u: u32 = c as u32;
    if u <= 0x7f {
        1
    } else if u <= 0x7ff {
        2
    } else if u <= 0xffff {
        3
    } else {
        4
    }
}

/// The code units a character takes in UTF-16.
pub fn len_utf16(c: char) -> (w: u32)
    ensures
        w == utf16_width(c),
{
    if c as u32 <= 0xffff {
        1
    } else {
        2
    }
}

/// The bytes a string takes.
pub fn str_len(s: &str) -> (n: usize)
    ensures
        n == byte_len(s@),
{
    proof {
        lemma_encode_len(s@);
    }
    s.as_bytes().len()
}

/// The text from byte offset `at` on, where `at` is where character `k` starts.
pub(crate) fn tail_from<'a>(s: &'a str, at: usize, k: Ghost<int>) -> (rest: &'a str)
    requires
        0 <= k@ <= s@.len(),
        at == byte_offset(s@, k@),
    ensures
        rest@ == s@.skip(k@),
{
    proof {
        lemma_encode_at(s@, k@);
    }
    let (_, rest) = s.split_at(at);
    proof {
        lemma_encode_injective(rest@, s@.skip(k@));
    }
    rest
}

/// The text up to byte offset `at`, where `at` is where character `k` starts.
pub(crate) fn head_to<'a>(s: &'a str, at: usize, k: Ghost<int>) -> (head: &'a str)
    requires
        0 <= k@ <= s@.len(),
        at == byte_offset(s@, k@),
    ensures
        head@ == s@.take(k@),
{
    proof {
        lemma_encode_at(s@, k@);
        lemma_encode_before(s@, k@);
    }
    let (head, _) = s.split_at(at);
    proof {
        lemma_encode_injective(head@, s@.take(k@));
    }
    head
}

/// Whether a character is white space: it has the Unicode `White_Space`
/// property.
pub open spec fn is_space(c: char) -> bool {
    let u = c as u32;
    ||| 0x9 <= u <= 0xd
    ||| u == 0x20
    ||| u == 0x85
    ||| u == 0xa0
    ||| u == 0x1680
    ||| 0x2000 <= u <= 0x200a
    ||| u == 0x2028
    ||| u == 0x2029
    ||| u == 0x202f
    ||| u == 0x205f
    ||| u == 0x3000
}

/// The first character at or after `k` that is not white space, or the end.
pub open spec fn skip_space(s: Seq<char>, k: int) -> int
    decreases s.len() - k,
{
    if k < s.len() && is_space(s[k]) {
        skip_space(s, k + 1)
    } else {
        k
    }
}

/// The end of the last character before `k` that is not white space, or the
/// start.
pub open spec fn drop_space(s: Seq<char>, k: int) -> int
    decreases k,
{
    if k > 0 && is_space(s[k - 1]) {
        drop_space(s, k - 1)
    } else {
        k
    }
}

/// A string without the white space around it.
pub open spec fn trimmed(s: Seq<char>) -> Seq<char> {
    let first = skip_space(s, 0);
    let last = drop_space(s, s.len() as int);
    if first < last {
        s.subrange(first, last)
    } else {
        Seq::empty()
    }
}

fn is_whitespace(c: char) -> (space: bool)
    ensures
        space == is_space(c),
{
    let u: u32 = c as u32;
    (0x9 <= u && u <= 0xd) || u == 0x20 || u == 0x85 || u == 0xa0 || u == 0x1680 || (0x2000 <= u
        && u <= 0x200a) || u == 0x2028 || u == 0x2029 || u == 0x202f || u == 0x205f || u == 0x3000
}

/// A string without the white space around it.
pub fn trim(text: &str) -> (r: &str)
    ensures
        r@ == trimmed(text@),
{
    let ghost s = text@;
    let total: usize = str_len(text);
    let mut off: usize = 0;
    let mut first: usize = 0;
    let mut last: usize = 0;
    let mut seen: bool = false;
    let mut it = text.chars();
    let ghost mut k: int = 0;
    let ghost mut a: int = 0;
    let ghost mut b: int = 0;
    loop
        invariant_except_break
            it.remaining() == s.skip(k),
        invariant
            total == byte_len(s),
            0 <= k <= s.len(),
            off == byte_offset(s, k),
            drop_space(s, k) == b,
            !seen ==> skip_space(s, 0) == skip_space(s, k) && b == 0,
            seen ==> 0 <= a < b <= k && skip_space(s, 0) == a && first == byte_offset(s, a)
                && last == byte_offset(s, b),
        ensures
            k == s.len(),
        decreases s.len() - k,
    {
        match it.next() {
            Some(c) => {
                proof {
                    assert(c == s[k]);
                    lemma_byte_offset_grows(s, k + 1, s.len() as int);
                    assert(s.skip(k).drop_first() =~= s.skip(k + 1));
                }
                let next: usize = off + len_utf8(c);
                if !is_whitespace(c) {
                    if !seen {
                        seen = true;
                        first = off;
                        proof {
                            a = k;
                        }
                    }
                    last = next;
                    proof {
                        b = k + 1;
                    }
                }
                off = next;
                proof {
                    k = k + 1;
                }
            },
            None => {
                break;
            },
        }
    }
    if !seen {
        let r = head_to(text, 0, Ghost(0));
        assert(r@ =~= trimmed(s));
        return r;
    }
    proof {
        lemma_byte_offset_grows(s, a, b);
        lemma_byte_offset_skip(s, a, b - a);
    }
    let rest = tail_from(text, first, Ghost(a));
    let r = head_to(rest, last - first, Ghost(b - a));
    assert(r@ =~= trimmed(s));
    r
}

/// Whether two strings hold the same characters.
pub fn same_str(a: &str, b: &str) -> (same: bool)
    ensures
        same == (a@ == b@),
{
    let x = a.as_bytes();
    let y = b.as_bytes();
    if x.len() != y.len() {
        return false;
    }
    let mut i: usize = 0;
    while i < x.len()
        invariant
            x@ == encode_utf8(a@),
            y@ == encode_utf8(b@),
            x@.len() == y@.len(),
            0 <= i <= x@.len(),
            forall|j: int| 0 <= j < i ==> x@[j] == y@[j],
        decreases x@.len() - i,
    {
        if x[i] != y[i] {
            return false;
        }
        i += 1;
    }
    proof {
        assert(x@ =~= y@);
        lemma_encode_injective(a@, b@);
    }
    true
}

/// Whether `a` and `b` agree before `i`, where `a` ends or has the smaller byte.
pub open spec fn splits_at(a: Seq<u8>, b: Seq<u8>, i: int) -> bool {
    &&& 0 <= i <= a.len()
    &&& i < b.len()
    &&& forall|j: int| 0 <= j < i ==> a[j] == b[j]
    &&& i == a.len() || a[i] < b[i]
}

/// Whether one run of bytes sorts before another: where they first differ it has
/// the smaller byte, or it ends there.
pub open spec fn bytes_before(a: Seq<u8>, b: Seq<u8>) -> bool {
    exists|i: int| #[trigger] splits_at(a, b, i)
}

/// Whether one text sorts before another, by their bytes.
pub open spec fn text_before(a: Seq<char>, b: Seq<char>) -> bool {
    bytes_before(encode_utf8(a), encode_utf8(b))
}

/// Of two texts at most one sorts before the other, and none before itself.
pub proof fn lemma_text_before_one_way(a: Seq<char>, b: Seq<char>)
    requires
        text_before(a, b),
    ensures
        !text_before(b, a),
        a != b,
{
    let x = encode_utf8(a);
    let y = encode_utf8(b);
    let i = choose|i: int| #[trigger] splits_at(x, y, i);
    if text_before(b, a) {
        let j = choose|j: int| #[trigger] splits_at(y, x, j);
        if i < j {
            assert(y[i] == x[i]);
        } else if j < i {
            assert(x[j] == y[j]);
        }
    }
}

/// Sorting before carries over.
pub proof fn lemma_text_before_carries(a: Seq<char>, b: Seq<char>, c: Seq<char>)
    requires
        text_before(a, b),
        text_before(b, c),
    ensures
        text_before(a, c),
{
    let x = encode_utf8(a);
    let y = encode_utf8(b);
    let z = encode_utf8(c);
    let i = choose|i: int| #[trigger] splits_at(x, y, i);
    let j = choose|j: int| #[trigger] splits_at(y, z, j);
    if i <= j {
        assert(splits_at(x, z, i));
    } else {
        assert(x[j] == y[j]);
        assert(splits_at(x, z, j));
    }
}

/// Whether `a` sorts before `b`, by their bytes. Two different texts always sort
/// one way or the other.
pub fn str_before(a: &str, b: &str) -> (before: bool)
    ensures
        before == text_before(a@, b@),
        !before ==> a@ == b@ || text_before(b@, a@),
{
    let x = a.as_bytes();
    let y = b.as_bytes();
    let mut i: usize = 0;
    while i < x.len() && i < y.len()
        invariant
            x@ == encode_utf8(a@),
            y@ == encode_utf8(b@),
            0 <= i <= x@.len(),
            i <= y@.len(),
            forall|j: int| 0 <= j < i ==> x@[j] == y@[j],
        decreases x@.len() - i,
    {
        if x[i] < y[i] {
            assert(splits_at(x@, y@, i as int));
            return true;
        }
        if y[i] < x[i] {
            proof {
                assert(splits_at(y@, x@, i as int));
                lemma_text_before_one_way(b@, a@);
            }
            return false;
        }
        i += 1;
    }
    if i < y.len() {
        assert(splits_at(x@, y@, i as int));
        return true;
    }
    proof {
        if x@.len() > y@.len() {
            assert(splits_at(y@, x@, i as int));
            lemma_text_before_one_way(b@, a@);
        } else {
            assert(x@ =~= y@);
            lemma_encode_injective(a@, b@);
            if text_before(a@, b@) {
                lemma_text_before_one_way(a@, b@);
            }
        }
    }
    false
}

/// Whether `part` stands in `s` at character `i`.
pub open spec fn part_at(s: Seq<char>, part: Seq<char>, i: int) -> bool {
    &&& 0 <= i
    &&& i + part.len() <= s.len()
    &&& s.subrange(i, i + part.len()) == part
}

/// Whether `part` stands somewhere in `s`.
pub open spec fn has_part(s: Seq<char>, part: Seq<char>) -> bool {
    exists|i: int| #[trigger] part_at(s, part, i)
}

/// The characters of a string.
pub fn chars_of(s: &str) -> (out: Vec<char>)
    ensures
        out@ == s@,
{
    let mut out: Vec<char> = Vec::new();
    for c in it: s.chars()
        invariant
            it.seq() == s@,
            out@ == s@.take(it.index()),
    {
        out.push(c);
        assert(s@.take(it.index() + 1) =~= s@.take(it.index()).push(c));
    }
    assert(s@.take(s@.len() as int) =~= s@);
    out
}

/// Whether `part` stands somewhere in `s`.
pub fn contains_str(s: &str, part: &str) -> (found: bool)
    ensures
        found == has_part(s@, part@),
{
    let hay = chars_of(s);
    let needle = chars_of(part);
    if needle.len() > hay.len() {
        return false;
    }
    let last: usize = hay.len() - needle.len();
    let mut i: usize = 0;
    loop
        invariant
            hay@ == s@,
            needle@ == part@,
            last == hay@.len() - needle@.len(),
            hay@.len() <= usize::MAX,
            0 <= i <= last,
            forall|j: int| 0 <= j < i ==> !part_at(s@, part@, j),
        decreases last - i,
    {
        let mut k: usize = 0;
        let mut same = true;
        while k < needle.len() && same
            invariant
                hay@ == s@,
                needle@ == part@,
                i + needle@.len() <= hay@.len() <= usize::MAX,
                0 <= k <= needle@.len(),
                forall|j: int| 0 <= j < k ==> (same ==> hay@[i + j] == needle@[j]),
                !same ==> exists|j: int| 0 <= j < needle@.len() && hay@[i + j] != needle@[j],
            decreases needle@.len() - k,
        {
            if hay[i + k] != needle[k] {
                same = false;
                assert(hay@[i + k] != needle@[k as int]);
            }
            k += 1;
        }
        if same {
            assert(s@.subrange(i as int, i + part@.len()) =~= part@);
            assert(part_at(s@, part@, i as int));
            return true;
        }
        proof {
            let j = choose|j: int| 0 <= j < needle@.len() && hay@[i + j] != needle@[j];
            if part_at(s@, part@, i as int) {
                assert(s@.subrange(i as int, i + part@.len())[j] == part@[j]);
            }
        }
        if i == last {
            assert forall|j: int| !part_at(s@, part@, j) by {
                if part_at(s@, part@, j) {
                    assert(j <= last);
                }
            }
            return false;
        }
        i += 1;
    }
}

/// A text stands somewhere in another exactly where the other is some text, that
/// text, and some text again.
pub proof fn law_a_part_has_text_on_either_side(s: Seq<char>, part: Seq<char>)
    ensures
        has_part(s, part) <==> exists|a: Seq<char>, b: Seq<char>| s == #[trigger] (a + part + b),
{
    if has_part(s, part) {
        let i = choose|i: int| #[trigger] part_at(s, part, i);
        let a = s.take(i);
        let b = s.skip(i + part.len());
        assert(s.subrange(i, i + part.len()) == part);
        assert(s =~= a + part + b);
    }
    if exists|a: Seq<char>, b: Seq<char>| s == #[trigger] (a + part + b) {
        let (a, b) = choose|a: Seq<char>, b: Seq<char>| s == #[trigger] (a + part + b);
        assert(s.subrange(a.len() as int, (a.len() + part.len()) as int) =~= part);
        assert(part_at(s, part, a.len() as int));
    }
}

/// A character takes as many bytes as its encoding holds, and two code units
/// exactly where it takes four bytes.
pub proof fn law_a_character_measures_as_it_is_encoded(c: char)
    ensures
        utf8_width(c) == encode_utf8(seq![c]).len(),
        utf16_width(c) == (if encode_utf8(seq![c]).len() == 4 {
            2nat
        } else {
            1nat
        }),
{
    lemma_encode_len(seq![c]);
    assert(byte_offset(seq![c], 1) == byte_offset(seq![c], 0) + utf8_width(c));
}

/// The offset of a character is the length of the encoding of what comes before it.
pub proof fn law_an_offset_is_the_length_before_it(s: Seq<char>, k: int)
    requires
        0 <= k <= s.len(),
    ensures
        byte_offset(s, k) == encode_utf8(s.take(k)).len(),
        byte_len(s) == encode_utf8(s).len(),
{
    lemma_encode_before(s, k);
    lemma_encode_len(s);
}

/// The UTF-16 code units a text takes: two for a character past the first 65536 code
/// points and one for any other.
pub open spec fn code_units(s: Seq<char>) -> nat {
    s.fold_left(
        0nat,
        |sum: nat, c: char|
            sum + if c as u32 > 0xffff {
                2nat
            } else {
                1nat
            },
    )
}

/// The code units of a run are those of its characters.
pub proof fn law_code_units_add_up(s: Seq<char>, i: int, j: int)
    requires
        0 <= i <= j <= s.len(),
    ensures
        utf16_units(s, i, j) == code_units(s.subrange(i, j)),
    decreases j - i,
{
    if i < j {
        law_code_units_add_up(s, i, j - 1);
        assert(s.subrange(i, j).drop_last() =~= s.subrange(i, j - 1));
        assert(s.subrange(i, j).last() == s[j - 1]);
    }
}

/// A byte offset falls in the character whose bytes take it in, and one past the
/// end falls on the end.
pub proof fn law_an_offset_falls_in_its_character(s: Seq<char>, off: int)
    requires
        0 <= off,
    ensures
        ({
            let k = char_at(s, off);
            &&& 0 <= k <= s.len()
            &&& encode_utf8(s.take(k)).len() <= off
            &&& k < s.len() ==> off < encode_utf8(s.take(k + 1)).len()
            &&& off >= encode_utf8(s).len() ==> k == s.len()
        }),
{
    let k = char_at(s, off);
    lemma_char_floor(s, off, s.len() as int);
    lemma_encode_before(s, k);
    lemma_encode_len(s.take(k));
    lemma_encode_len(s);
    if k < s.len() {
        lemma_encode_before(s, k + 1);
        lemma_byte_offset_grows(s, k + 1, s.len() as int);
    }
}

/// White space is these characters and no others: the control characters from tab
/// to carriage return, the next line control, and the spaces and separators.
pub proof fn law_white_space_is_a_fixed_set(c: char)
    ensures
        is_space(c) <==> seq![
            0x9u32,
            0xa,
            0xb,
            0xc,
            0xd,
            0x20,
            0x85,
            0xa0,
            0x1680,
            0x2000,
            0x2001,
            0x2002,
            0x2003,
            0x2004,
            0x2005,
            0x2006,
            0x2007,
            0x2008,
            0x2009,
            0x200a,
            0x2028,
            0x2029,
            0x202f,
            0x205f,
            0x3000,
        ].contains(c as u32),
{
    let all = seq![
        0x9u32,
        0xa,
        0xb,
        0xc,
        0xd,
        0x20,
        0x85,
        0xa0,
        0x1680,
        0x2000,
        0x2001,
        0x2002,
        0x2003,
        0x2004,
        0x2005,
        0x2006,
        0x2007,
        0x2008,
        0x2009,
        0x200a,
        0x2028,
        0x2029,
        0x202f,
        0x205f,
        0x3000,
    ];
    let u = c as u32;
    assert(all[0] == 0x9 && all[1] == 0xa && all[2] == 0xb && all[3] == 0xc && all[4] == 0xd
        && all[5] == 0x20 && all[6] == 0x85 && all[7] == 0xa0 && all[8] == 0x1680);
    assert(all[9] == 0x2000 && all[10] == 0x2001 && all[11] == 0x2002 && all[12] == 0x2003
        && all[13] == 0x2004 && all[14] == 0x2005 && all[15] == 0x2006 && all[16] == 0x2007
        && all[17] == 0x2008 && all[18] == 0x2009 && all[19] == 0x200a);
    assert(all[20] == 0x2028 && all[21] == 0x2029 && all[22] == 0x202f && all[23] == 0x205f
        && all[24] == 0x3000);
    if all.contains(u) {
        let i = all.index_of(u);
        assert(0 <= i < 25 && all[i] == u);
    }
}

/// Trimming takes the white space off both ends and nothing else.
pub proof fn law_trimming_takes_off_outer_white_space(s: Seq<char>)
    ensures
        exists|a: Seq<char>, b: Seq<char>| s == #[trigger] (a + trimmed(s) + b) && (forall|i: int|
            0 <= i < a.len() ==> is_space(#[trigger] a[i])) && (forall|i: int|
            0 <= i < b.len() ==> is_space(#[trigger] b[i])),
        trimmed(s).len() > 0 ==> !is_space(trimmed(s)[0]) && !is_space(trimmed(s).last()),
{
    lemma_skip_space(s, 0);
    lemma_drop_space(s, s.len() as int);
    let first = skip_space(s, 0);
    let last = drop_space(s, s.len() as int);
    if first < last {
        let a = s.take(first);
        let b = s.skip(last);
        assert forall|i: int| 0 <= i < b.len() implies is_space(#[trigger] b[i]) by {
            assert(is_space(s[last + i]));
        }
        assert(s =~= a + trimmed(s) + b);
    } else {
        let none = Seq::<char>::empty();
        assert forall|i: int| 0 <= i < s.len() implies is_space(#[trigger] s[i]) by {}
        assert(s =~= s + trimmed(s) + none);
    }
}

proof fn lemma_skip_space(s: Seq<char>, k: int)
    requires
        0 <= k <= s.len(),
    ensures
        k <= skip_space(s, k) <= s.len(),
        forall|i: int| k <= i < skip_space(s, k) ==> is_space(#[trigger] s[i]),
        skip_space(s, k) < s.len() ==> !is_space(s[skip_space(s, k)]),
    decreases s.len() - k,
{
    if k < s.len() && is_space(s[k]) {
        lemma_skip_space(s, k + 1);
    }
}

proof fn lemma_drop_space(s: Seq<char>, k: int)
    requires
        0 <= k <= s.len(),
    ensures
        0 <= drop_space(s, k) <= k,
        forall|i: int| drop_space(s, k) <= i < k ==> is_space(#[trigger] s[i]),
        drop_space(s, k) > 0 ==> !is_space(s[drop_space(s, k) - 1]),
    decreases k,
{
    if k > 0 && is_space(s[k - 1]) {
        lemma_drop_space(s, k - 1);
    }
}

/// One text sorts before another exactly where their bytes have a common start
/// behind which the one ends and the other does not, or the one's next byte is the
/// smaller.
pub proof fn law_texts_sort_by_their_first_difference(a: Seq<char>, b: Seq<char>)
    ensures
        text_before(a, b) <==> exists|start: Seq<u8>, x: Seq<u8>, y: Seq<u8>|
            encode_utf8(a) == #[trigger] (start + x) && encode_utf8(b) == #[trigger] (start + y)
                && y.len() > 0 && (x.len() == 0 || x[0] < y[0]),
{
    let p = encode_utf8(a);
    let q = encode_utf8(b);
    if text_before(a, b) {
        let i = choose|i: int| #[trigger] splits_at(p, q, i);
        assert(q =~= p.take(i) + q.skip(i));
        assert(p =~= p.take(i) + p.skip(i));
    }
    if exists|start: Seq<u8>, x: Seq<u8>, y: Seq<u8>|
        p == #[trigger] (start + x) && q == #[trigger] (start + y) && y.len() > 0 && (x.len() == 0
            || x[0] < y[0]) {
        let (start, x, y) = choose|start: Seq<u8>, x: Seq<u8>, y: Seq<u8>|
            p == #[trigger] (start + x) && q == #[trigger] (start + y) && y.len() > 0 && (x.len()
                == 0 || x[0] < y[0]);
        assert(splits_at(p, q, start.len() as int));
    }
}

/// White space around a text makes no difference to what trimming leaves: where the
/// text itself neither begins nor ends in white space, it is left whole, and white
/// space alone leaves nothing.
pub proof fn law_outer_white_space_makes_no_difference(
    a: Seq<char>,
    core: Seq<char>,
    b: Seq<char>,
)
    requires
        forall|i: int| 0 <= i < a.len() ==> is_space(#[trigger] a[i]),
        forall|i: int| 0 <= i < b.len() ==> is_space(#[trigger] b[i]),
        core.len() > 0 ==> !is_space(core[0]) && !is_space(core.last()),
    ensures
        trimmed(a + core + b) == core,
{
    let s = a + core + b;
    lemma_skip_space(s, 0);
    lemma_drop_space(s, s.len() as int);
    let first = skip_space(s, 0);
    let last = drop_space(s, s.len() as int);
    if core.len() > 0 {
        let from = a.len() as int;
        let to = from + core.len();
        assert(s[from] == core[0]);
        assert(s[to - 1] == core.last());
        if first < from {
            assert(s[first] == a[first]);
        } else if from < first {
            assert(is_space(s[from]));
        }
        if to < last {
            assert(s[last - 1] == b[last - 1 - to]);
        } else if last < to {
            assert(is_space(s[to - 1]));
        }
        assert(s.subrange(first, last) =~= core);
    } else {
        if first < s.len() {
            if first < a.len() {
                assert(s[first] == a[first]);
            } else {
                assert(s[first] == b[first - a.len()]);
            }
        }
        assert(trimmed(s) =~= core);
    }
}

} // verus!
