//! A type's spelling reads back as the same type: two types that are spelled the
//! same are the same.
//!
//! A spelling is a base and the `[]` and `[N]` suffixes behind it. A suffix takes
//! in everything before it, and a pointer or a function everything after it, which
//! is why such an element is wrapped before a suffix.

use vstd::prelude::*;

#[allow(unused_imports)]
use crate::compiler::ast::TypeTree;
#[allow(unused_imports)]
use crate::compiler::render::{decimal, digit, element_text, joined, type_text, type_texts};

verus! {

/// Whether a character has a meaning of its own in a spelling.
pub open spec fn special(c: char) -> bool {
    c == '<' || c == '>' || c == '*' || c == '(' || c == ')' || c == '[' || c == ']' || c == ','
        || c == ' '
}

/// Whether a text can stand as one word in a spelling.
pub open spec fn word(s: Seq<char>) -> bool {
    s.len() > 0 && forall|i: int| 0 <= i < s.len() ==> !special(#[trigger] s[i])
}

/// Whether a type can be written in dusk: names are words, the unit type goes by
/// `void` alone, and a type in parens is that type, not a tuple of one.
pub open spec fn readable(t: TypeTree) -> bool
    decreases t,
{
    match t {
        TypeTree::Named(name, args) => word(name) && (args.len() == 0 ==> name != "void"@)
            && all_readable(args),
        TypeTree::Ptr(inner) => readable(*inner),
        TypeTree::RawPtr(inner) => readable(*inner),
        TypeTree::Slice(inner) => readable(*inner),
        TypeTree::Array(inner, _) => readable(*inner),
        TypeTree::Tuple(items) => items.len() != 1 && all_readable(items),
        TypeTree::Func(params, ret) => all_readable(params) && readable(*ret),
        TypeTree::Unit => true,
    }
}

/// Whether each of several types can be written in dusk.
pub open spec fn all_readable(types: Seq<TypeTree>) -> bool
    decreases types,
{
    if types.len() == 0 {
        true
    } else {
        all_readable(types.drop_last()) && readable(types.last())
    }
}

/// Whether a type takes in what follows it, so that it is wrapped before a suffix.
spec fn wraps(t: TypeTree) -> bool {
    t is Ptr || t is RawPtr || t is Func
}

/// What stands before a spelling's suffixes: a type that has none, or one that is
/// wrapped in parens.
enum Base {
    Plain(TypeTree),
    Wrapped(TypeTree),
}

spec fn base(t: TypeTree) -> Base
    decreases t,
{
    match t {
        TypeTree::Slice(inner) => if wraps(*inner) {
            Base::Wrapped(*inner)
        } else {
            base(*inner)
        },
        TypeTree::Array(inner, _) => if wraps(*inner) {
            Base::Wrapped(*inner)
        } else {
            base(*inner)
        },
        _ => Base::Plain(t),
    }
}

/// The suffixes of a spelling: a length, or none for a slice.
spec fn suffixes(t: TypeTree) -> Seq<Option<nat>>
    decreases t,
{
    match t {
        TypeTree::Slice(inner) => if wraps(*inner) {
            seq![None]
        } else {
            suffixes(*inner).push(None)
        },
        TypeTree::Array(inner, n) => if wraps(*inner) {
            seq![Some(n)]
        } else {
            suffixes(*inner).push(Some(n))
        },
        _ => Seq::empty(),
    }
}

spec fn base_text(b: Base) -> Seq<char> {
    match b {
        Base::Plain(t) => type_text(t),
        Base::Wrapped(t) => seq!['('] + type_text(t) + seq![')'],
    }
}

spec fn suffix_text(s: Option<nat>) -> Seq<char> {
    match s {
        Some(n) => seq!['['] + decimal(n) + seq![']'],
        None => seq!['[', ']'],
    }
}

spec fn suffixes_text(list: Seq<Option<nat>>) -> Seq<char>
    decreases list.len(),
{
    if list.len() == 0 {
        Seq::empty()
    } else {
        suffixes_text(list.drop_last()) + suffix_text(list.last())
    }
}

/// Whether a text can follow a type: it ends there, or a list goes on or closes.
pub open spec fn ends(rest: Seq<char>) -> bool {
    rest.len() == 0 || rest[0] == ',' || rest[0] == ')' || rest[0] == '>'
}

/// Whether a base is one a readable type has.
spec fn sound(b: Base) -> bool {
    match b {
        Base::Plain(t) => readable(t) && !(t is Slice) && !(t is Array),
        Base::Wrapped(t) => readable(t) && wraps(t),
    }
}

/// Whether a text can follow a base: suffixes may, except behind a type that would
/// take them in, and must behind a wrapped one.
spec fn follows(b: Base, rest: Seq<char>) -> bool {
    match b {
        Base::Plain(t) => ends(rest) || (!wraps(t) && rest[0] == '['),
        Base::Wrapped(t) => rest.len() > 0 && rest[0] == '[',
    }
}

pub proof fn lemma_literals()
    ensures
        "<"@ == seq!['<'],
        ">"@ == seq!['>'],
        "*"@ == seq!['*'],
        "*raw "@ == seq!['*', 'r', 'a', 'w', ' '],
        "[]"@ == seq!['[', ']'],
        "["@ == seq!['['],
        "]"@ == seq![']'],
        "("@ == seq!['('],
        ")"@ == seq![')'],
        ") -> "@ == seq![')', ' ', '-', '>', ' '],
        ", "@ == seq![',', ' '],
        "void"@ == seq!['v', 'o', 'i', 'd'],
{
    reveal_strlit("<");
    reveal_strlit(">");
    reveal_strlit("*");
    reveal_strlit("*raw ");
    reveal_strlit("[]");
    reveal_strlit("[");
    reveal_strlit("]");
    reveal_strlit("(");
    reveal_strlit(")");
    reveal_strlit(") -> ");
    reveal_strlit(", ");
    reveal_strlit("void");
    assert("<"@ =~= seq!['<']);
    assert(">"@ =~= seq!['>']);
    assert("*"@ =~= seq!['*']);
    assert("*raw "@ =~= seq!['*', 'r', 'a', 'w', ' ']);
    assert("[]"@ =~= seq!['[', ']']);
    assert("["@ =~= seq!['[']);
    assert("]"@ =~= seq![']']);
    assert("("@ =~= seq!['(']);
    assert(")"@ =~= seq![')']);
    assert(") -> "@ =~= seq![')', ' ', '-', '>', ' ']);
    assert(", "@ =~= seq![',', ' ']);
    assert("void"@ =~= seq!['v', 'o', 'i', 'd']);
}

/// Equal texts stay equal without a common start.
pub proof fn lemma_drop_start(start: Seq<char>, a: Seq<char>, b: Seq<char>)
    requires
        start + a == start + b,
    ensures
        a == b,
{
    assert(a =~= (start + a).skip(start.len() as int));
    assert(b =~= (start + b).skip(start.len() as int));
}

/// Two words that what follows them cuts off are the same where the texts are.
proof fn lemma_words(a: Seq<char>, b: Seq<char>, x: Seq<char>, y: Seq<char>)
    requires
        word(a),
        word(b),
        x.len() > 0 ==> special(x[0]),
        y.len() > 0 ==> special(y[0]),
        a + x == b + y,
    ensures
        a == b,
        x == y,
{
    let s = a + x;
    if a.len() < b.len() {
        assert(s[a.len() as int] == x[0]);
        assert((b + y)[a.len() as int] == b[a.len() as int]);
    }
    if b.len() < a.len() {
        assert((b + y)[b.len() as int] == y[0]);
        assert(s[b.len() as int] == a[b.len() as int]);
    }
    assert(a =~= s.take(a.len() as int));
    assert(b =~= (b + y).take(b.len() as int));
    lemma_drop_start(a, x, y);
}

proof fn lemma_decimal_word(n: nat)
    ensures
        word(decimal(n)),
    decreases n,
{
    if n >= 10 {
        lemma_decimal_word(n / 10);
    }
}

/// A number has one spelling, and a spelling one number.
proof fn lemma_decimal_once(a: nat, b: nat)
    requires
        decimal(a) == decimal(b),
    ensures
        a == b,
    decreases a,
{
    lemma_decimal_word(a / 10);
    lemma_decimal_word(b / 10);
    if a >= 10 && b >= 10 {
        assert(decimal(a).drop_last() =~= decimal(a / 10));
        assert(decimal(b).drop_last() =~= decimal(b / 10));
        lemma_decimal_once(a / 10, b / 10);
        assert(decimal(a).last() == digit(a % 10));
        assert(decimal(b).last() == digit(b % 10));
    } else {
        assert(decimal(a).last() == digit(a % 10));
        assert(decimal(b).last() == digit(b % 10));
        if a < 10 {
            assert(decimal(a).len() == 1);
        }
        if b < 10 {
            assert(decimal(b).len() == 1);
        }
        if a >= 10 {
            assert(decimal(a).len() == decimal(a / 10).len() + 1);
        }
        if b >= 10 {
            assert(decimal(b).len() == decimal(b / 10).len() + 1);
        }
    }
}

/// A spelling is its base and its suffixes.
proof fn lemma_split(t: TypeTree)
    requires
        readable(t),
    ensures
        type_text(t) == base_text(base(t)) + suffixes_text(suffixes(t)),
        sound(base(t)),
        base(t) is Wrapped ==> suffixes(t).len() > 0,
        base(t) matches Base::Plain(u) && wraps(u) ==> suffixes(t).len() == 0,
    decreases t,
{
    lemma_literals();
    match t {
        TypeTree::Slice(inner) => {
            lemma_split(*inner);
            lemma_split_one(t, *inner, None);
        },
        TypeTree::Array(inner, n) => {
            lemma_split(*inner);
            assert(type_text(t) =~= element_text(*inner, type_text(*inner)) + suffix_text(
                Some(n),
            ));
            lemma_split_one(t, *inner, Some(n));
        },
        _ => {
            assert(type_text(t) =~= type_text(t) + Seq::<char>::empty());
        },
    }
}

proof fn lemma_split_one(t: TypeTree, inner: TypeTree, s: Option<nat>)
    requires
        type_text(t) == element_text(inner, type_text(inner)) + suffix_text(s),
        type_text(inner) == base_text(base(inner)) + suffixes_text(suffixes(inner)),
        base(t) == (if wraps(inner) {
            Base::Wrapped(inner)
        } else {
            base(inner)
        }),
        suffixes(t) == (if wraps(inner) {
            seq![s]
        } else {
            suffixes(inner).push(s)
        }),
    ensures
        type_text(t) == base_text(base(t)) + suffixes_text(suffixes(t)),
{
    lemma_literals();
    assert(suffixes(t).last() == s);
    if wraps(inner) {
        assert(suffixes(t).drop_last() =~= Seq::empty());
        assert(suffixes_text(suffixes(t)) =~= suffix_text(s));
    } else {
        assert(suffixes(t).drop_last() =~= suffixes(inner));
        assert(type_text(t) =~= base_text(base(t)) + (suffixes_text(suffixes(inner))
            + suffix_text(s)));
    }
}

/// A type is settled by its base and its suffixes.
proof fn lemma_rebuild(a: TypeTree, b: TypeTree)
    requires
        readable(a),
        readable(b),
        base(a) == base(b),
        suffixes(a) == suffixes(b),
    ensures
        a == b,
    decreases a,
{
    lemma_split(a);
    lemma_split(b);
    if suffixes(a).len() > 0 {
        let x = suffixed(a);
        let y = suffixed(b);
        assert(suffixes(a).last() == suffixes(b).last());
        lemma_split(x);
        lemma_split(y);
        if !wraps(x) {
            assert(suffixes(a).drop_last() =~= suffixes(x));
        } else {
            assert(suffixes(a).drop_last() =~= Seq::empty());
        }
        if !wraps(y) {
            assert(suffixes(b).drop_last() =~= suffixes(y));
        } else {
            assert(suffixes(b).drop_last() =~= Seq::empty());
        }
        if !wraps(x) && !wraps(y) {
            lemma_rebuild(x, y);
        }
    }
}

/// The element of a slice or an array.
spec fn suffixed(t: TypeTree) -> TypeTree {
    match t {
        TypeTree::Slice(inner) => *inner,
        TypeTree::Array(inner, _) => *inner,
        _ => t,
    }
}

/// The first suffix comes first.
proof fn lemma_suffixes_front(list: Seq<Option<nat>>)
    requires
        list.len() > 0,
    ensures
        suffixes_text(list) == suffix_text(list[0]) + suffixes_text(list.drop_first()),
    decreases list.len(),
{
    if list.len() == 1 {
        assert(list.drop_last() =~= Seq::empty());
        assert(list.drop_first() =~= Seq::empty());
        assert(suffixes_text(list) =~= suffix_text(list[0]) + suffixes_text(list.drop_first()));
    } else {
        lemma_suffixes_front(list.drop_last());
        assert(list.drop_last().drop_first() =~= list.drop_first().drop_last());
        assert(suffixes_text(list) =~= suffix_text(list[0]) + (suffixes_text(
            list.drop_first().drop_last(),
        ) + suffix_text(list.last())));
    }
}

/// Suffixes are settled by their text, up to where a type ends.
proof fn lemma_suffixes(a: Seq<Option<nat>>, b: Seq<Option<nat>>, x: Seq<char>, y: Seq<char>)
    requires
        ends(x),
        ends(y),
        suffixes_text(a) + x == suffixes_text(b) + y,
    ensures
        a == b,
        x == y,
    decreases a.len(),
{
    let whole = suffixes_text(a) + x;
    if a.len() == 0 {
        assert(whole =~= x);
    } else {
        lemma_suffixes_front(a);
        assert(whole[0] == '[');
    }
    if b.len() == 0 {
        assert(suffixes_text(b) + y =~= y);
    } else {
        lemma_suffixes_front(b);
        assert((suffixes_text(b) + y)[0] == '[');
    }
    if a.len() == 0 || b.len() == 0 {
        assert(a =~= b);
    } else {
        let p = suffixes_text(a.drop_first()) + x;
        let q = suffixes_text(b.drop_first()) + y;
        assert(suffix_text(a[0]) + p =~= whole);
        assert(suffix_text(b[0]) + q =~= whole);
        lemma_suffix(a[0], b[0], p, q);
        lemma_suffixes(a.drop_first(), b.drop_first(), x, y);
        assert(a =~= seq![a[0]] + a.drop_first());
        assert(b =~= seq![b[0]] + b.drop_first());
    }
}

/// One suffix is settled by its text.
proof fn lemma_suffix(a: Option<nat>, b: Option<nat>, x: Seq<char>, y: Seq<char>)
    requires
        suffix_text(a) + x == suffix_text(b) + y,
    ensures
        a == b,
        x == y,
{
    let whole = suffix_text(a) + x;
    match (a, b) {
        (Some(m), Some(n)) => {
            lemma_decimal_word(m);
            lemma_decimal_word(n);
            assert(whole =~= seq!['['] + (decimal(m) + (seq![']'] + x)));
            assert(whole =~= seq!['['] + (decimal(n) + (seq![']'] + y)));
            lemma_drop_start(
                seq!['['],
                decimal(m) + (seq![']'] + x),
                decimal(n) + (seq![']'] + y),
            );
            lemma_words(decimal(m), decimal(n), seq![']'] + x, seq![']'] + y);
            lemma_decimal_once(m, n);
            lemma_drop_start(seq![']'], x, y);
        },
        (None, None) => {
            lemma_drop_start(seq!['[', ']'], x, y);
        },
        (Some(m), None) => {
            lemma_decimal_word(m);
            assert(whole[1] == decimal(m)[0]);
            assert((suffix_text(b) + y)[1] == ']');
        },
        (None, Some(n)) => {
            lemma_decimal_word(n);
            assert((suffix_text(b) + y)[1] == decimal(n)[0]);
            assert(whole[1] == ']');
        },
    }
}

/// What a base begins with tells words, pointers and parens apart.
proof fn lemma_base_first(b: Base)
    requires
        sound(b),
    ensures
        base_text(b).len() > 0,
        ({
            let c = base_text(b)[0];
            match b {
                Base::Wrapped(_) => c == '(',
                Base::Plain(t) => match t {
                    TypeTree::Named(_, _) => !special(c),
                    TypeTree::Unit => !special(c),
                    TypeTree::Ptr(_) => c == '*',
                    TypeTree::RawPtr(_) => c == '*',
                    _ => c == '(',
                },
            }
        }),
{
    lemma_literals();
    match b {
        Base::Wrapped(_) => {},
        Base::Plain(t) => match t {
            TypeTree::Named(name, args) => {
                if args.len() > 0 {
                    assert(type_text(t)[0] == name[0]);
                }
            },
            _ => {},
        },
    }
}

/// A type's spelling is never empty, and never begins as the end of one does.
proof fn lemma_type_first(t: TypeTree)
    requires
        readable(t),
    ensures
        type_text(t).len() > 0,
        !ends(type_text(t)),
        type_text(t)[0] != '[',
        type_text(t)[0] != ' ',
{
    lemma_split(t);
    lemma_base_first(base(t));
    assert(type_text(t)[0] == base_text(base(t))[0]);
}

pub proof fn lemma_texts_len(types: Seq<TypeTree>)
    ensures
        type_texts(types).len() == types.len(),
        forall|i: int| 0 <= i < types.len() ==> #[trigger] type_texts(types)[i] == type_text(
            types[i],
        ),
    decreases types.len(),
{
    if types.len() > 0 {
        lemma_texts_len(types.drop_last());
    }
}

proof fn lemma_all_readable(types: Seq<TypeTree>)
    requires
        all_readable(types),
    ensures
        forall|i: int| 0 <= i < types.len() ==> readable(#[trigger] types[i]),
        types.len() > 0 ==> all_readable(types.drop_first()),
    decreases types.len(),
{
    if types.len() > 0 {
        let front = types.drop_last();
        lemma_all_readable(front);
        assert forall|i: int| 0 <= i < types.len() implies readable(#[trigger] types[i]) by {
            if i < front.len() {
                assert(readable(front[i]));
            }
        }
        if types.len() > 1 {
            assert(types.drop_first().drop_last() =~= types.drop_last().drop_first());
        }
    }
}

spec fn list_text(types: Seq<TypeTree>) -> Seq<char> {
    joined(type_texts(types), ", "@)
}

/// What follows the first type of a list.
spec fn list_rest(types: Seq<TypeTree>) -> Seq<char> {
    if types.len() <= 1 {
        Seq::empty()
    } else {
        seq![',', ' '] + list_text(types.drop_first())
    }
}

/// The first type of a list comes first.
proof fn lemma_list_front(types: Seq<TypeTree>)
    requires
        types.len() > 0,
    ensures
        list_text(types) == type_text(types[0]) + list_rest(types),
    decreases types.len(),
{
    lemma_literals();
    lemma_texts_len(types);
    if types.len() == 1 {
        assert(list_text(types) =~= type_text(types[0]) + list_rest(types));
    } else {
        let front = types.drop_last();
        lemma_list_front(front);
        lemma_texts_len(front);
        assert(type_texts(types).drop_last() =~= type_texts(front));
        assert(type_texts(types).last() == type_text(types.last()));
        let tail = types.drop_first();
        lemma_texts_len(tail);
        if types.len() == 2 {
            assert(list_text(tail) =~= type_text(types.last()));
            assert(list_text(types) =~= type_text(types[0]) + list_rest(types));
        } else {
            assert(tail.drop_last() =~= front.drop_first());
            lemma_texts_len(tail.drop_last());
            assert(type_texts(tail).drop_last() =~= type_texts(tail.drop_last()));
            assert(list_text(tail) == list_text(tail.drop_last()) + ", "@ + type_text(
                types.last(),
            ));
            assert(list_text(types) =~= type_text(types[0]) + list_rest(types));
        }
    }
}

/// A list is settled by its text, up to where it closes.
proof fn lemma_lists(a: Seq<TypeTree>, b: Seq<TypeTree>, x: Seq<char>, y: Seq<char>)
    requires
        all_readable(a),
        all_readable(b),
        x.len() > 0 && (x[0] == ')' || x[0] == '>'),
        y.len() > 0 && (y[0] == ')' || y[0] == '>'),
        list_text(a) + x == list_text(b) + y,
    ensures
        a == b,
        x == y,
    decreases list_text(a).len(), 3int,
{
    lemma_all_readable(a);
    lemma_all_readable(b);
    let whole = list_text(a) + x;
    if a.len() > 0 {
        lemma_list_front(a);
        lemma_type_first(a[0]);
        assert(whole[0] == type_text(a[0])[0]);
    } else {
        assert(whole =~= x);
    }
    if b.len() > 0 {
        lemma_list_front(b);
        lemma_type_first(b[0]);
        assert((list_text(b) + y)[0] == type_text(b[0])[0]);
    } else {
        assert(list_text(b) + y =~= y);
    }
    if a.len() == 0 || b.len() == 0 {
        assert(a =~= b);
    } else {
        let p = list_rest(a) + x;
        let q = list_rest(b) + y;
        assert(type_text(a[0]) + p =~= whole);
        assert(type_text(b[0]) + q =~= whole);
        assert(p[0] == (if a.len() > 1 {
            ','
        } else {
            x[0]
        }));
        assert(q[0] == (if b.len() > 1 {
            ','
        } else {
            y[0]
        }));
        lemma_types(a[0], b[0], p, q);
        if a.len() > 1 {
            let tail = a.drop_first();
            assert(p =~= seq![',', ' '] + (list_text(tail) + x));
            assert(q =~= seq![',', ' '] + (list_text(b.drop_first()) + y));
            lemma_drop_start(
                seq![',', ' '],
                list_text(tail) + x,
                list_text(b.drop_first()) + y,
            );
            lemma_lists(tail, b.drop_first(), x, y);
            assert(a =~= seq![a[0]] + tail);
            assert(b =~= seq![b[0]] + b.drop_first());
        } else {
            assert(p =~= x);
            assert(q =~= y);
            assert(a =~= b);
        }
    }
}

/// A type is settled by its spelling, up to where it ends.
pub proof fn lemma_types(a: TypeTree, b: TypeTree, x: Seq<char>, y: Seq<char>)
    requires
        readable(a),
        readable(b),
        ends(x),
        ends(y),
        type_text(a) + x == type_text(b) + y,
    ensures
        a == b,
        x == y,
    decreases type_text(a).len(), 2int,
{
    lemma_split(a);
    lemma_split(b);
    let p = suffixes_text(suffixes(a)) + x;
    let q = suffixes_text(suffixes(b)) + y;
    assert(base_text(base(a)) + p =~= type_text(a) + x);
    assert(base_text(base(b)) + q =~= type_text(b) + y);
    lemma_follows(a, x);
    lemma_follows(b, y);
    lemma_bases(base(a), base(b), p, q);
    lemma_suffixes(suffixes(a), suffixes(b), x, y);
    lemma_rebuild(a, b);
}

/// A type's suffixes can follow its base.
proof fn lemma_follows(t: TypeTree, rest: Seq<char>)
    requires
        readable(t),
        ends(rest),
    ensures
        follows(base(t), suffixes_text(suffixes(t)) + rest),
{
    lemma_split(t);
    if suffixes(t).len() > 0 {
        lemma_suffixes_front(suffixes(t));
        assert((suffixes_text(suffixes(t)) + rest)[0] == '[');
    } else {
        assert(suffixes_text(suffixes(t)) + rest =~= rest);
    }
}

/// The word a base begins with.
spec fn base_word(t: TypeTree) -> Seq<char> {
    match t {
        TypeTree::Named(name, _) => name,
        _ => "void"@,
    }
}

/// What follows the word a base begins with.
spec fn base_args(t: TypeTree) -> Seq<char> {
    match t {
        TypeTree::Named(_, args) => if args.len() == 0 {
            Seq::empty()
        } else {
            seq!['<'] + list_text(args) + seq!['>']
        },
        _ => Seq::empty(),
    }
}

spec fn is_word(b: Base) -> bool {
    b matches Base::Plain(t) && (t is Named || t is Unit)
}

/// The types a base holds in its parens.
spec fn held(b: Base) -> Seq<TypeTree> {
    match b {
        Base::Wrapped(t) => seq![t],
        Base::Plain(t) => match t {
            TypeTree::Tuple(items) => items,
            TypeTree::Func(params, _) => params,
            _ => Seq::empty(),
        },
    }
}

/// What follows a base's closing paren.
spec fn behind(b: Base) -> Seq<char> {
    match b {
        Base::Plain(TypeTree::Func(_, ret)) => seq![' ', '-', '>', ' '] + type_text(*ret),
        _ => Seq::empty(),
    }
}

spec fn is_paren(b: Base) -> bool {
    b is Wrapped || (b matches Base::Plain(t) && (t is Tuple || t is Func))
}

proof fn lemma_paren_text(b: Base)
    requires
        sound(b),
        is_paren(b),
    ensures
        base_text(b) == seq!['('] + list_text(held(b)) + seq![')'] + behind(b),
        all_readable(held(b)),
{
    lemma_literals();
    match b {
        Base::Wrapped(t) => {
            lemma_texts_len(seq![t]);
            assert(seq![t].drop_last() =~= Seq::empty());
            assert(all_readable(Seq::<TypeTree>::empty()));
            assert(list_text(seq![t]) =~= type_text(t));
        },
        Base::Plain(t) => {},
    }
    assert(base_text(b) =~= seq!['('] + list_text(held(b)) + seq![')'] + behind(b));
}

proof fn lemma_word_text(t: TypeTree)
    requires
        readable(t),
        t is Named || t is Unit,
    ensures
        type_text(t) == base_word(t) + base_args(t),
        word(base_word(t)),
{
    lemma_literals();
    assert(type_text(t) =~= base_word(t) + base_args(t));
}

/// A base is settled by its text, up to what can follow it.
proof fn lemma_bases(a: Base, b: Base, x: Seq<char>, y: Seq<char>)
    requires
        sound(a),
        sound(b),
        follows(a, x),
        follows(b, y),
        base_text(a) + x == base_text(b) + y,
    ensures
        a == b,
        x == y,
    decreases base_text(a).len(), 1int,
{
    lemma_literals();
    lemma_base_first(a);
    lemma_base_first(b);
    let whole = base_text(a) + x;
    assert(whole[0] == base_text(a)[0]);
    assert((base_text(b) + y)[0] == base_text(b)[0]);
    if is_word(a) {
        lemma_word_bases(a, b, x, y);
    } else if is_paren(a) {
        lemma_paren_bases(a, b, x, y);
    } else {
        lemma_pointer_bases(a, b, x, y);
    }
}

proof fn lemma_word_bases(a: Base, b: Base, x: Seq<char>, y: Seq<char>)
    requires
        sound(a),
        sound(b),
        is_word(a),
        is_word(b),
        follows(a, x),
        follows(b, y),
        base_text(a) + x == base_text(b) + y,
    ensures
        a == b,
        x == y,
    decreases base_text(a).len(), 0int,
{
    lemma_literals();
    let t = a->Plain_0;
    let u = b->Plain_0;
    lemma_word_text(t);
    lemma_word_text(u);
    let p = base_args(t) + x;
    let q = base_args(u) + y;
    assert(base_text(a) + x =~= base_word(t) + p);
    assert(base_text(b) + y =~= base_word(u) + q);
    if base_args(t).len() == 0 {
        assert(p =~= x);
    } else {
        assert(p[0] == '<');
    }
    if base_args(u).len() == 0 {
        assert(q =~= y);
    } else {
        assert(q[0] == '<');
    }
    lemma_words(base_word(t), base_word(u), p, q);
    if base_args(t).len() == 0 {
        if let TypeTree::Named(_, args) = t {
            assert(args.len() == 0);
            if let TypeTree::Named(_, others) = u {
                assert(others.len() == 0);
                assert(args =~= others);
            }
        }
    } else {
        let args = t->Named_1;
        let others = u->Named_1;
        assert(p =~= seq!['<'] + (list_text(args) + (seq!['>'] + x)));
        assert(q =~= seq!['<'] + (list_text(others) + (seq!['>'] + y)));
        lemma_drop_start(
            seq!['<'],
            list_text(args) + (seq!['>'] + x),
            list_text(others) + (seq!['>'] + y),
        );
        assert(list_text(args).len() < base_text(a).len());
        lemma_lists(args, others, seq!['>'] + x, seq!['>'] + y);
        lemma_drop_start(seq!['>'], x, y);
    }
}

/// The shape of a base in parens, with what follows it.
proof fn lemma_paren_shape(b: Base, x: Seq<char>)
    requires
        sound(b),
        is_paren(b),
    ensures
        base_text(b) + x == seq!['('] + (list_text(held(b)) + (seq![')'] + (behind(b) + x))),
        all_readable(held(b)),
        list_text(held(b)).len() < base_text(b).len(),
{
    lemma_paren_text(b);
    assert(base_text(b) + x =~= seq!['('] + (list_text(held(b)) + (seq![')'] + (behind(b) + x))));
}

proof fn lemma_paren_bases(a: Base, b: Base, x: Seq<char>, y: Seq<char>)
    requires
        sound(a),
        sound(b),
        is_paren(a),
        is_paren(b),
        follows(a, x),
        follows(b, y),
        base_text(a) + x == base_text(b) + y,
    ensures
        a == b,
        x == y,
    decreases base_text(a).len(), 0int,
{
    lemma_paren_shape(a, x);
    lemma_paren_shape(b, y);
    let p = behind(a) + x;
    let q = behind(b) + y;
    let close = seq![')'];
    lemma_drop_start(
        seq!['('],
        list_text(held(a)) + (close + p),
        list_text(held(b)) + (close + q),
    );
    assert((close + p)[0] == ')');
    assert((close + q)[0] == ')');
    lemma_lists(held(a), held(b), close + p, close + q);
    lemma_drop_start(close, p, q);
    lemma_behind(a, x);
    lemma_behind(b, y);
    if behind(a).len() > 0 {
        let t = *a->Plain_0->Func_1;
        let u = *b->Plain_0->Func_1;
        lemma_drop_start(seq![' ', '-', '>', ' '], type_text(t) + x, type_text(u) + y);
        lemma_behind_shorter(a);
        lemma_types(t, u, x, y);
    } else {
        assert(a is Wrapped ==> held(a)[0] == a->Wrapped_0);
        assert(b is Wrapped ==> held(b)[0] == b->Wrapped_0);
    }
}

/// What follows a closing paren tells a function from the rest.
proof fn lemma_behind(b: Base, x: Seq<char>)
    requires
        sound(b),
        is_paren(b),
        follows(b, x),
    ensures
        behind(b).len() == 0 ==> behind(b) + x == x && (x.len() > 0 ==> x[0] != ' '),
        behind(b).len() > 0 ==> b is Plain && b->Plain_0 is Func && (behind(b) + x)[0] == ' '
            && behind(b) + x == seq![' ', '-', '>', ' '] + (type_text(*b->Plain_0->Func_1) + x),
{
    if behind(b).len() == 0 {
        assert(behind(b) + x =~= x);
    } else {
        assert(behind(b) + x =~= seq![' ', '-', '>', ' '] + (type_text(*b->Plain_0->Func_1)
            + x));
    }
}

proof fn lemma_behind_shorter(b: Base)
    requires
        sound(b),
        is_paren(b),
        behind(b).len() > 0,
    ensures
        type_text(*b->Plain_0->Func_1).len() < base_text(b).len(),
{
    lemma_paren_text(b);
}

proof fn lemma_pointer_bases(a: Base, b: Base, x: Seq<char>, y: Seq<char>)
    requires
        sound(a),
        sound(b),
        a matches Base::Plain(t) && (t is Ptr || t is RawPtr),
        b matches Base::Plain(u) && (u is Ptr || u is RawPtr),
        follows(a, x),
        follows(b, y),
        base_text(a) + x == base_text(b) + y,
    ensures
        a == b,
        x == y,
    decreases base_text(a).len(), 0int,
{
    lemma_literals();
    match (a->Plain_0, b->Plain_0) {
        (TypeTree::Ptr(t), TypeTree::Ptr(u)) => {
            assert(base_text(a) + x =~= seq!['*'] + (type_text(*t) + x));
            assert(base_text(b) + y =~= seq!['*'] + (type_text(*u) + y));
            lemma_drop_start(seq!['*'], type_text(*t) + x, type_text(*u) + y);
            lemma_types(*t, *u, x, y);
        },
        (TypeTree::RawPtr(t), TypeTree::RawPtr(u)) => {
            let raw = seq!['*', 'r', 'a', 'w', ' '];
            assert(base_text(a) + x =~= raw + (type_text(*t) + x));
            assert(base_text(b) + y =~= raw + (type_text(*u) + y));
            lemma_drop_start(raw, type_text(*t) + x, type_text(*u) + y);
            lemma_types(*t, *u, x, y);
        },
        (TypeTree::Ptr(t), TypeTree::RawPtr(u)) => {
            let raw = seq!['r', 'a', 'w', ' '];
            assert(base_text(a) + x =~= seq!['*'] + (type_text(*t) + x));
            assert(base_text(b) + y =~= seq!['*'] + (raw + (type_text(*u) + y)));
            lemma_drop_start(seq!['*'], type_text(*t) + x, raw + (type_text(*u) + y));
            lemma_never_raw(*t, x, type_text(*u) + y);
        },
        (TypeTree::RawPtr(t), TypeTree::Ptr(u)) => {
            let raw = seq!['r', 'a', 'w', ' '];
            assert(base_text(a) + x =~= seq!['*'] + (raw + (type_text(*t) + x)));
            assert(base_text(b) + y =~= seq!['*'] + (type_text(*u) + y));
            lemma_drop_start(seq!['*'], raw + (type_text(*t) + x), type_text(*u) + y);
            lemma_never_raw(*u, y, type_text(*t) + x);
        },
        _ => {},
    }
}

/// No type is spelled `raw` with a space behind it.
proof fn lemma_never_raw(t: TypeTree, x: Seq<char>, y: Seq<char>)
    requires
        readable(t),
        ends(x),
    ensures
        type_text(t) + x != seq!['r', 'a', 'w', ' '] + y,
{
    let whole = type_text(t) + x;
    if whole == seq!['r', 'a', 'w', ' '] + y {
        lemma_split(t);
        lemma_base_first(base(t));
        lemma_follows(t, x);
        let p = suffixes_text(suffixes(t)) + x;
        assert(base_text(base(t)) + p =~= whole);
        assert(whole[0] == 'r');
        assert(whole[0] == base_text(base(t))[0]);
        assert(is_word(base(t)));
        let u = base(t)->Plain_0;
        lemma_word_text(u);
        let q = base_args(u) + p;
        assert(whole =~= base_word(u) + q);
        if base_args(u).len() == 0 {
            assert(q =~= p);
        } else {
            assert(q[0] == '<');
        }
        let raw = seq!['r', 'a', 'w'];
        assert(whole =~= raw + (seq![' '] + y));
        lemma_words(base_word(u), raw, q, seq![' '] + y);
        assert(q[0] == ' ');
    }
}

/// A type's spelling reads back as the same type: two types spelled the same are
/// the same.
pub proof fn law_a_spelling_reads_back(a: TypeTree, b: TypeTree)
    requires
        readable(a),
        readable(b),
        type_text(a) == type_text(b),
    ensures
        a == b,
{
    let none = Seq::<char>::empty();
    assert(type_text(a) + none =~= type_text(a));
    assert(type_text(b) + none =~= type_text(b));
    lemma_types(a, b, none, none);
}

} // verus!
