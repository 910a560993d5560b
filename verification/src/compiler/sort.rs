//! Ordering highlighted spans by where they start.

use vstd::prelude::*;

verus! {

/// One highlighted span in absolute terms: its line, the column it starts at and
/// its length, both in UTF-16 code units, its role's number, and its modifiers.
#[derive(Clone, Copy, Debug, PartialEq, Eq, Structural)]
pub struct Item {
    pub line: u32,
    pub start: u32,
    pub len: u32,
    pub ty: u32,
    pub mods: u32,
}

impl Item {
    /// Whether this item starts no later than `other`.
    pub open spec fn starts_by(self, other: Item) -> bool {
        self.line < other.line || (self.line == other.line && self.start <= other.start)
    }

    /// Whether this item starts at a place.
    pub open spec fn starts_at(self, line: u32, start: u32) -> bool {
        self.line == line && self.start == start
    }

    fn comes_by(&self, other: &Item) -> (r: bool)
        ensures
            r == self.starts_by(*other),
    {
        self.line < other.line || (self.line == other.line && self.start <= other.start)
    }
}

/// Whether items come in the order they start.
pub open spec fn sorted(items: Seq<Item>) -> bool {
    forall|i: int, j: int|
        0 <= i <= j < items.len() ==> (#[trigger] items[i]).starts_by(#[trigger] items[j])
}

/// The items that start at a place, in the order given.
pub open spec fn starting_at(items: Seq<Item>, line: u32, start: u32) -> Seq<Item>
    decreases items.len(),
{
    if items.len() == 0 {
        Seq::empty()
    } else {
        let before = starting_at(items.drop_last(), line, start);
        if items.last().starts_at(line, start) {
            before.push(items.last())
        } else {
            before
        }
    }
}

/// Whether `out` holds the items of `input` in the order they start, where items
/// that start at the same place keep the order they had.
pub open spec fn stably_sorted(input: Seq<Item>, out: Seq<Item>) -> bool {
    &&& sorted(out)
    &&& forall|line: u32, start: u32| #[trigger]
        starting_at(out, line, start) == starting_at(input, line, start)
}

/// The items of two runs that start at a place are those of the one, then those
/// of the other.
proof fn lemma_starting_at_adds(a: Seq<Item>, b: Seq<Item>, line: u32, start: u32)
    ensures
        starting_at(a + b, line, start) == starting_at(a, line, start) + starting_at(
            b,
            line,
            start,
        ),
    decreases b.len(),
{
    if b.len() == 0 {
        assert(a + b =~= a);
        assert(starting_at(a, line, start) + starting_at(b, line, start) =~= starting_at(
            a,
            line,
            start,
        ));
    } else {
        lemma_starting_at_adds(a, b.drop_last(), line, start);
        assert((a + b).drop_last() =~= a + b.drop_last());
        assert((a + b).last() == b.last());
        assert(starting_at(a + b, line, start) =~= starting_at(a, line, start) + starting_at(
            b,
            line,
            start,
        ));
    }
}

/// A run none of whose items starts at a place contributes nothing there.
proof fn lemma_starting_at_none(items: Seq<Item>, line: u32, start: u32)
    requires
        forall|i: int| 0 <= i < items.len() ==> !(#[trigger] items[i]).starts_at(line, start),
    ensures
        starting_at(items, line, start) == Seq::<Item>::empty(),
    decreases items.len(),
{
    if items.len() > 0 {
        assert(!items[items.len() - 1].starts_at(line, start));
        assert forall|i: int| 0 <= i < items.drop_last().len() implies !(
        #[trigger] items.drop_last()[i]).starts_at(line, start) by {
            assert(!items[i].starts_at(line, start));
        }
        lemma_starting_at_none(items.drop_last(), line, start);
    }
}

/// The items that start at the place of the last one end with it.
proof fn lemma_starting_at_last(items: Seq<Item>)
    requires
        items.len() > 0,
    ensures
        ({
            let last = items.last();
            let here = starting_at(items, last.line, last.start);
            here.len() > 0 && here.last() == last
        }),
{
}

/// An item that starts at a place is among the items that do.
proof fn lemma_starting_at_member(items: Seq<Item>, line: u32, start: u32)
    requires
        starting_at(items, line, start).len() > 0,
    ensures
        exists|i: int| 0 <= i < items.len() && (#[trigger] items[i]).starts_at(line, start),
    decreases items.len(),
{
    if items.len() > 0 {
        if items.last().starts_at(line, start) {
            assert(items[items.len() - 1].starts_at(line, start));
        } else {
            lemma_starting_at_member(items.drop_last(), line, start);
            let i = choose|i: int|
                0 <= i < items.drop_last().len() && (#[trigger] items.drop_last()[i]).starts_at(
                    line,
                    start,
                );
            assert(items[i].starts_at(line, start));
        }
    }
}

/// There is only one way to sort items by where they start and keep the order of
/// those that start together.
pub proof fn law_stable_order_is_unique(input: Seq<Item>, a: Seq<Item>, b: Seq<Item>)
    requires
        stably_sorted(input, a),
        stably_sorted(input, b),
    ensures
        a == b,
{
    lemma_same_order(a, b);
}

proof fn lemma_same_order(a: Seq<Item>, b: Seq<Item>)
    requires
        sorted(a),
        sorted(b),
        forall|line: u32, start: u32| #[trigger]
            starting_at(a, line, start) == starting_at(b, line, start),
    ensures
        a == b,
    decreases a.len(),
{
    if a.len() == 0 {
        if b.len() > 0 {
            let last = b.last();
            lemma_starting_at_last(b);
            assert(starting_at(a, last.line, last.start) == starting_at(b, last.line, last.start));
        }
        assert(a =~= b);
    } else {
        let x = a.last();
        lemma_starting_at_last(a);
        assert(starting_at(a, x.line, x.start) == starting_at(b, x.line, x.start));
        lemma_starting_at_member(b, x.line, x.start);
        let y = b.last();
        lemma_starting_at_last(b);
        assert(starting_at(a, y.line, y.start) == starting_at(b, y.line, y.start));
        lemma_starting_at_member(a, y.line, y.start);
        // Each last item starts no earlier than the other, so they start together.
        let i = choose|i: int| 0 <= i < b.len() && (#[trigger] b[i]).starts_at(x.line, x.start);
        assert(b[i].starts_by(b[b.len() - 1]));
        let j = choose|j: int| 0 <= j < a.len() && (#[trigger] a[j]).starts_at(y.line, y.start);
        assert(a[j].starts_by(a[a.len() - 1]));
        assert(x.line == y.line && x.start == y.start);
        assert(x == y);
        let a2 = a.drop_last();
        let b2 = b.drop_last();
        assert forall|line: u32, start: u32| #[trigger]
            starting_at(a2, line, start) == starting_at(b2, line, start) by {
            assert(starting_at(a, line, start) == starting_at(b, line, start));
            if x.starts_at(line, start) {
                assert(starting_at(a2, line, start) =~= starting_at(a, line, start).drop_last());
                assert(starting_at(b2, line, start) =~= starting_at(b, line, start).drop_last());
            }
        }
        assert(sorted(a2)) by {
            assert forall|i: int, j: int| 0 <= i <= j < a2.len() implies (
            #[trigger] a2[i]).starts_by(#[trigger] a2[j]) by {
                assert(a[i].starts_by(a[j]));
            }
        }
        assert(sorted(b2)) by {
            assert forall|i: int, j: int| 0 <= i <= j < b2.len() implies (
            #[trigger] b2[i]).starts_by(#[trigger] b2[j]) by {
                assert(b[i].starts_by(b[j]));
            }
        }
        lemma_same_order(a2, b2);
        assert(a =~= a2.push(x));
        assert(b =~= b2.push(y));
    }
}

/// Merges two sorted runs into one. Where items of both start together, those of
/// `left` come first.
fn merge(left: &Vec<Item>, right: &Vec<Item>) -> (out: Vec<Item>)
    requires
        sorted(left@),
        sorted(right@),
    ensures
        stably_sorted(left@ + right@, out@),
{
    let ghost l = left@;
    let ghost r = right@;
    let mut out: Vec<Item> = Vec::new();
    let mut i: usize = 0;
    let mut j: usize = 0;
    proof {
        assert(l.take(0) + r.take(0) =~= Seq::<Item>::empty());
    }
    while i < left.len() || j < right.len()
        invariant
            l == left@,
            r == right@,
            sorted(l),
            sorted(r),
            0 <= i <= l.len(),
            0 <= j <= r.len(),
            sorted(out@),
            // What is out starts no later than what is left.
            forall|a: int, b: int|
                0 <= a < out@.len() && i <= b < l.len() ==> (#[trigger] out@[a]).starts_by(
                    #[trigger] l[b],
                ),
            forall|a: int, b: int|
                0 <= a < out@.len() && j <= b < r.len() ==> (#[trigger] out@[a]).starts_by(
                    #[trigger] r[b],
                ),
            // What is out of the right run starts before what is left of the left.
            forall|a: int, b: int|
                0 <= a < j && i <= b < l.len() ==> !(#[trigger] l[b]).starts_by(#[trigger] r[a]),
            forall|line: u32, start: u32| #[trigger]
                starting_at(out@, line, start) == starting_at(l.take(i as int), line, start)
                    + starting_at(r.take(j as int), line, start),
        decreases (l.len() - i) + (r.len() - j),
    {
        let ghost before = out@;
        let from_left: bool = if i < left.len() {
            j >= right.len() || left[i].comes_by(&right[j])
        } else {
            false
        };
        if from_left {
            let item: Item = left[i];
            out.push(item);
            proof {
                assert forall|line: u32, start: u32| #[trigger]
                    starting_at(out@, line, start) == starting_at(l.take(i + 1), line, start)
                        + starting_at(r.take(j as int), line, start) by {
                    assert(out@.drop_last() =~= before);
                    assert(l.take(i + 1).drop_last() =~= l.take(i as int));
                    let lt = starting_at(l.take(i as int), line, start);
                    let rt = starting_at(r.take(j as int), line, start);
                    assert(starting_at(before, line, start) == lt + rt);
                    if item.starts_at(line, start) {
                        assert forall|a: int| 0 <= a < r.take(j as int).len() implies !(
                        #[trigger] r.take(j as int)[a]).starts_at(line, start) by {
                            assert(!l[i as int].starts_by(r[a]));
                        }
                        lemma_starting_at_none(r.take(j as int), line, start);
                        assert((lt + rt).push(item) =~= lt.push(item) + rt);
                    }
                }
                assert(sorted(out@)) by {
                    assert forall|a: int, b: int| 0 <= a <= b < out@.len() implies (
                    #[trigger] out@[a]).starts_by(#[trigger] out@[b]) by {
                        if b < before.len() {
                            assert(before[a].starts_by(before[b]));
                        } else if a < before.len() {
                            assert(before[a].starts_by(l[i as int]));
                        }
                    }
                }
                assert forall|a: int, b: int|
                    0 <= a < out@.len() && i + 1 <= b < l.len() implies (
                #[trigger] out@[a]).starts_by(#[trigger] l[b]) by {
                    if a < before.len() {
                        assert(before[a].starts_by(l[b]));
                    } else {
                        assert(l[i as int].starts_by(l[b]));
                    }
                }
                assert forall|a: int, b: int| 0 <= a < out@.len() && j <= b < r.len() implies (
                #[trigger] out@[a]).starts_by(#[trigger] r[b]) by {
                    if a < before.len() {
                        assert(before[a].starts_by(r[b]));
                    } else {
                        assert(r[j as int].starts_by(r[b]));
                    }
                }
            }
            i += 1;
        } else {
            let item: Item = right[j];
            out.push(item);
            proof {
                assert forall|line: u32, start: u32| #[trigger]
                    starting_at(out@, line, start) == starting_at(l.take(i as int), line, start)
                        + starting_at(r.take(j + 1), line, start) by {
                    assert(out@.drop_last() =~= before);
                    assert(r.take(j + 1).drop_last() =~= r.take(j as int));
                    let lt = starting_at(l.take(i as int), line, start);
                    let rt = starting_at(r.take(j as int), line, start);
                    assert(starting_at(before, line, start) == lt + rt);
                    assert((lt + rt).push(item) =~= lt + rt.push(item));
                }
                assert(sorted(out@)) by {
                    assert forall|a: int, b: int| 0 <= a <= b < out@.len() implies (
                    #[trigger] out@[a]).starts_by(#[trigger] out@[b]) by {
                        if b < before.len() {
                            assert(before[a].starts_by(before[b]));
                        } else if a < before.len() {
                            assert(before[a].starts_by(r[j as int]));
                        }
                    }
                }
                assert forall|a: int, b: int|
                    0 <= a < out@.len() && j + 1 <= b < r.len() implies (
                #[trigger] out@[a]).starts_by(#[trigger] r[b]) by {
                    if a < before.len() {
                        assert(before[a].starts_by(r[b]));
                    } else {
                        assert(r[j as int].starts_by(r[b]));
                    }
                }
                assert forall|a: int, b: int| 0 <= a < out@.len() && i <= b < l.len() implies (
                #[trigger] out@[a]).starts_by(#[trigger] l[b]) by {
                    if a < before.len() {
                        assert(before[a].starts_by(l[b]));
                    } else {
                        assert(l[i as int].starts_by(l[b]));
                    }
                }
                assert forall|a: int, b: int| 0 <= a < j + 1 && i <= b < l.len() implies !(
                #[trigger] l[b]).starts_by(#[trigger] r[a]) by {
                    if a < j {
                        assert(!l[b].starts_by(r[a]));
                    } else {
                        assert(l[i as int].starts_by(l[b]));
                    }
                }
            }
            j += 1;
        }
    }
    proof {
        assert(l.take(i as int) =~= l);
        assert(r.take(j as int) =~= r);
        assert forall|line: u32, start: u32| #[trigger]
            starting_at(out@, line, start) == starting_at(l + r, line, start) by {
            lemma_starting_at_adds(l, r, line, start);
        }
    }
    out
}

/// The items from `lo` up to `hi` in the order they start.
fn sort_run(items: &Vec<Item>, lo: usize, hi: usize) -> (out: Vec<Item>)
    requires
        lo <= hi <= items@.len(),
    ensures
        stably_sorted(items@.subrange(lo as int, hi as int), out@),
    decreases hi - lo,
{
    let ghost whole = items@.subrange(lo as int, hi as int);
    if hi - lo <= 1 {
        let mut out: Vec<Item> = Vec::new();
        if hi > lo {
            out.push(items[lo]);
        }
        assert(out@ =~= whole);
        return out;
    }
    let mid: usize = lo + (hi - lo) / 2;
    let left = sort_run(items, lo, mid);
    let right = sort_run(items, mid, hi);
    let out = merge(&left, &right);
    proof {
        let a = items@.subrange(lo as int, mid as int);
        let b = items@.subrange(mid as int, hi as int);
        assert(a + b =~= whole);
        assert forall|line: u32, start: u32| #[trigger]
            starting_at(out@, line, start) == starting_at(whole, line, start) by {
            lemma_starting_at_adds(a, b, line, start);
            lemma_starting_at_adds(left@, right@, line, start);
            assert(starting_at(left@, line, start) == starting_at(a, line, start));
            assert(starting_at(right@, line, start) == starting_at(b, line, start));
        }
    }
    out
}

/// The items in the order they start. Items that start together keep the order
/// they had.
pub fn sort_by_start(items: &Vec<Item>) -> (out: Vec<Item>)
    ensures
        stably_sorted(items@, out@),
{
    assert(items@.subrange(0, items@.len() as int) =~= items@);
    sort_run(items, 0, items.len())
}

proof fn lemma_starting_at_picked(
    items: Seq<Item>,
    line: u32,
    start: u32,
    pick: spec_fn(Item) -> Option<Item>,
)
    requires
        forall|x: Item| #[trigger]
            pick(x) == if x.line == line && x.start == start {
                Some(x)
            } else {
                None
            },
    ensures
        starting_at(items, line, start) == items.filter_map(pick),
    decreases items.len(),
{
    if items.len() > 0 {
        lemma_starting_at_picked(items.drop_last(), line, start, pick);
        assert(starting_at(items, line, start) =~= items.filter_map(pick));
    }
}

/// Items that start at the same place keep the order they had, for every place.
pub proof fn law_sorting_is_stable(input: Seq<Item>, out: Seq<Item>, line: u32, start: u32)
    requires
        stably_sorted(input, out),
    ensures
        out.filter_map(
            |x: Item|
                if x.line == line && x.start == start {
                    Some(x)
                } else {
                    None
                },
        ) == input.filter_map(
            |x: Item|
                if x.line == line && x.start == start {
                    Some(x)
                } else {
                    None
                },
        ),
        forall|i: int, j: int|
            0 <= i < j < out.len() ==> (#[trigger] out[i]).line < (#[trigger] out[j]).line || (
            out[i].line == out[j].line && out[i].start <= out[j].start),
{
    let pick = |x: Item|
        if x.line == line && x.start == start {
            Some(x)
        } else {
            None
        };
    lemma_starting_at_picked(out, line, start, pick);
    lemma_starting_at_picked(input, line, start, pick);
    assert(starting_at(out, line, start) == starting_at(input, line, start));
    assert forall|i: int, j: int| 0 <= i < j < out.len() implies (#[trigger] out[i]).line < (
    #[trigger] out[j]).line || (out[i].line == out[j].line && out[i].start <= out[j].start) by {
        assert(out[i].starts_by(out[j]));
    }
}

proof fn lemma_count_at(items: Seq<Item>, x: Item)
    ensures
        items.to_multiset().count(x) == starting_at(items, x.line, x.start).to_multiset().count(x),
    decreases items.len(),
{
    broadcast use vstd::seq_lib::group_to_multiset_ensures;

    if items.len() > 0 {
        let front = items.drop_last();
        lemma_count_at(front, x);
        assert(items =~= front.push(items.last()));
        assert(items.to_multiset() =~= front.to_multiset().insert(items.last()));
        if items.last().starts_at(x.line, x.start) {
            let before = starting_at(front, x.line, x.start);
            assert(starting_at(items, x.line, x.start) == before.push(items.last()));
            assert(before.push(items.last()).to_multiset() =~= before.to_multiset().insert(
                items.last(),
            ));
        }
    } else {
        assert(starting_at(items, x.line, x.start) =~= items);
    }
}

/// Sorting loses no item and makes none up: each is there as often as before.
pub proof fn law_sorting_keeps_every_item(input: Seq<Item>, out: Seq<Item>)
    requires
        stably_sorted(input, out),
    ensures
        out.to_multiset() == input.to_multiset(),
        out.len() == input.len(),
{
    broadcast use vstd::seq_lib::group_to_multiset_ensures;

    assert forall|x: Item| out.to_multiset().count(x) == input.to_multiset().count(x) by {
        lemma_count_at(out, x);
        lemma_count_at(input, x);
        assert(starting_at(out, x.line, x.start) == starting_at(input, x.line, x.start));
    }
    assert(out.to_multiset() =~= input.to_multiset());
    assert(out.len() == out.to_multiset().len());
    assert(input.len() == input.to_multiset().len());
}

} // verus!
