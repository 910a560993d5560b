//! A signature shows the whole declaration: it reads back as the name, the generic
//! parameters, and the fields, variants, methods or parameters it was rendered from,
//! each in its place.

use vstd::prelude::*;

#[allow(unused_imports)]
use crate::compiler::ast::{
    Enum, Field, ForeignFunc, Func, Interface, MethodSig, Param, Struct, Type, TypeTree, Variant,
};
#[allow(unused_imports)]
use crate::compiler::ast::{lemma_trees, trees};
#[allow(unused_imports)]
use crate::compiler::render::{
    decimal, digit, enum_text, field_text, fields_text, foreign_text, func_text, generics_text,
    header_text, interface_text, joined, kind_word, method_text, param_text, params_text,
    struct_text, texts, type_text, type_texts, variant_text,
};
#[allow(unused_imports)]
use crate::compiler::spelling::{
    ends, lemma_drop_start, lemma_literals, lemma_texts_len, lemma_types, readable, special,
};
#[allow(unused_imports)]
use crate::protocol::SymbolKind;
#[allow(unused_imports)]
use crate::text::{is_space, law_outer_white_space_makes_no_difference, trimmed};

verus! {

/// Whether a character stands between the parts of a signature.
pub open spec fn mark(c: char) -> bool {
    special(c) || c == ':' || c == ';'
}

/// Whether a text can stand as a name in a signature.
pub open spec fn name_word(s: Seq<char>) -> bool {
    s.len() > 0 && forall|i: int| 0 <= i < s.len() ==> !mark(#[trigger] s[i])
}

/// Whether each of several texts can stand as a name in a signature.
pub open spec fn name_words(names: Seq<String>) -> bool {
    forall|i: int| 0 <= i < names.len() ==> name_word((#[trigger] names[i])@)
}

/// Whether a parameter can be written in dusk.
pub open spec fn param_reads(p: Param) -> bool {
    name_word(p.name@) && readable(p.ty@)
}

/// Whether a field can be written in dusk.
pub open spec fn field_reads(f: Field) -> bool {
    name_word(f.name@) && readable(f.ty@)
}

/// Whether each of several parameters can be written in dusk.
pub open spec fn params_read(ps: Seq<Param>) -> bool {
    forall|i: int| 0 <= i < ps.len() ==> param_reads(#[trigger] ps[i])
}

/// Whether each of several fields can be written in dusk.
pub open spec fn fields_read(fs: Seq<Field>) -> bool {
    forall|i: int| 0 <= i < fs.len() ==> field_reads(#[trigger] fs[i])
}

/// Whether two lists hold the same names.
pub open spec fn same_names(a: Seq<String>, b: Seq<String>) -> bool {
    a.len() == b.len() && forall|i: int| 0 <= i < a.len() ==> (#[trigger] a[i])@ == b[i]@
}

/// Whether two lists hold the same parameters.
pub open spec fn same_params(a: Seq<Param>, b: Seq<Param>) -> bool {
    a.len() == b.len() && forall|i: int|
        0 <= i < a.len() ==> (#[trigger] a[i]).name@ == b[i].name@ && a[i].ty@ == b[i].ty@
            && a[i].using == b[i].using
}

/// Whether two lists hold the same fields.
pub open spec fn same_fields(a: Seq<Field>, b: Seq<Field>) -> bool {
    a.len() == b.len() && forall|i: int|
        0 <= i < a.len() ==> (#[trigger] a[i]).name@ == b[i].name@ && a[i].ty@ == b[i].ty@
}

/// A parameter or a field.
struct Entry {
    using: bool,
    name: Seq<char>,
    ty: TypeTree,
}

spec fn param_entries(ps: Seq<Param>) -> Seq<Entry> {
    Seq::new(
        ps.len(),
        |i: int| Entry { using: ps[i].using, name: ps[i].name@, ty: ps[i].ty@ },
    )
}

spec fn field_entries(fs: Seq<Field>) -> Seq<Entry> {
    Seq::new(fs.len(), |i: int| Entry { using: false, name: fs[i].name@, ty: fs[i].ty@ })
}

spec fn entry_text(e: Entry) -> Seq<char> {
    (if e.using {
        "using "@
    } else {
        ""@
    }) + e.name + ": "@ + type_text(e.ty)
}

spec fn entry_texts(es: Seq<Entry>) -> Seq<Seq<char>> {
    Seq::new(es.len(), |i: int| entry_text(es[i]))
}

spec fn entries_text(es: Seq<Entry>) -> Seq<char> {
    joined(entry_texts(es), ", "@)
}

spec fn entries_read(es: Seq<Entry>) -> bool {
    forall|i: int|
        0 <= i < es.len() ==> name_word((#[trigger] es[i]).name) && readable(es[i].ty)
}

/// Texts without a stop are settled by what they make up with what a stop cuts off.
proof fn lemma_cut(
    a: Seq<char>,
    b: Seq<char>,
    x: Seq<char>,
    y: Seq<char>,
    stop: spec_fn(char) -> bool,
)
    requires
        forall|i: int| 0 <= i < a.len() ==> !stop(#[trigger] a[i]),
        forall|i: int| 0 <= i < b.len() ==> !stop(#[trigger] b[i]),
        x.len() > 0 ==> stop(x[0]),
        y.len() > 0 ==> stop(y[0]),
        a + x == b + y,
    ensures
        a == b,
        x == y,
{
    let s = a + x;
    let t = b + y;
    assert(s.len() == t.len());
    if a.len() < b.len() {
        assert(s[a.len() as int] == x[0]);
        assert(t[a.len() as int] == b[a.len() as int]);
    }
    if b.len() < a.len() {
        assert(t[b.len() as int] == y[0]);
        assert(s[b.len() as int] == a[b.len() as int]);
    }
    assert(a =~= s.take(a.len() as int));
    assert(b =~= t.take(b.len() as int));
    lemma_drop_start(a, x, y);
}

/// Equal texts stay equal without a common end.
proof fn lemma_drop_end(a: Seq<char>, b: Seq<char>, end: Seq<char>)
    requires
        a + end == b + end,
    ensures
        a == b,
{
    assert((a + end).len() == (b + end).len());
    assert(a =~= (a + end).take(a.len() as int));
    assert(b =~= (b + end).take(b.len() as int));
}

/// What follows the first of several parts.
spec fn parts_rest(parts: Seq<Seq<char>>, sep: Seq<char>) -> Seq<char> {
    if parts.len() <= 1 {
        Seq::empty()
    } else {
        sep + joined(parts.drop_first(), sep)
    }
}

/// The first part comes first.
proof fn lemma_joined_front(parts: Seq<Seq<char>>, sep: Seq<char>)
    requires
        parts.len() > 0,
    ensures
        joined(parts, sep) == parts[0] + parts_rest(parts, sep),
    decreases parts.len(),
{
    if parts.len() == 1 {
        assert(joined(parts, sep) =~= parts[0] + parts_rest(parts, sep));
    } else {
        let front = parts.drop_last();
        let tail = parts.drop_first();
        lemma_joined_front(front, sep);
        assert(front[0] == parts[0]);
        if parts.len() == 2 {
            assert(joined(tail, sep) == parts[1]);
            assert(joined(parts, sep) =~= parts[0] + parts_rest(parts, sep));
        } else {
            assert(front.drop_first() =~= tail.drop_last());
            assert(joined(tail, sep) == joined(tail.drop_last(), sep) + sep + parts.last());
            assert(joined(parts, sep) =~= parts[0] + parts_rest(parts, sep));
        }
    }
}

proof fn lemma_marks()
    ensures
        "using "@ == seq!['u', 's', 'i', 'n', 'g', ' '],
        ""@ == Seq::<char>::empty(),
        ": "@ == seq![':', ' '],
        " { "@ == seq![' ', '{', ' '],
        " }"@ == seq![' ', '}'],
        "; "@ == seq![';', ' '],
        " "@ == seq![' '],
        "func"@ == seq!['f', 'u', 'n', 'c'],
        "func "@ == seq!['f', 'u', 'n', 'c', ' '],
        "async func"@ == seq!['a', 's', 'y', 'n', 'c', ' ', 'f', 'u', 'n', 'c'],
        "struct "@ == seq!['s', 't', 'r', 'u', 'c', 't', ' '],
        "enum "@ == seq!['e', 'n', 'u', 'm', ' '],
        "interface "@ == seq!['i', 'n', 't', 'e', 'r', 'f', 'a', 'c', 'e', ' '],
{
    reveal_strlit("using ");
    reveal_strlit("");
    reveal_strlit(": ");
    reveal_strlit(" { ");
    reveal_strlit(" }");
    reveal_strlit("; ");
    reveal_strlit(" ");
    reveal_strlit("func");
    reveal_strlit("func ");
    reveal_strlit("async func");
    reveal_strlit("struct ");
    reveal_strlit("enum ");
    reveal_strlit("interface ");
    assert("using "@ =~= seq!['u', 's', 'i', 'n', 'g', ' ']);
    assert(""@ =~= Seq::<char>::empty());
    assert(": "@ =~= seq![':', ' ']);
    assert(" { "@ =~= seq![' ', '{', ' ']);
    assert(" }"@ =~= seq![' ', '}']);
    assert("; "@ =~= seq![';', ' ']);
    assert(" "@ =~= seq![' ']);
    assert("func"@ =~= seq!['f', 'u', 'n', 'c']);
    assert("func "@ =~= seq!['f', 'u', 'n', 'c', ' ']);
    assert("async func"@ =~= seq!['a', 's', 'y', 'n', 'c', ' ', 'f', 'u', 'n', 'c']);
    assert("struct "@ =~= seq!['s', 't', 'r', 'u', 'c', 't', ' ']);
    assert("enum "@ =~= seq!['e', 'n', 'u', 'm', ' ']);
    assert("interface "@ =~= seq!['i', 'n', 't', 'e', 'r', 'f', 'a', 'c', 'e', ' ']);
}

/// Names are settled by the text they make up with what a mark cuts off.
proof fn lemma_name(a: Seq<char>, b: Seq<char>, x: Seq<char>, y: Seq<char>)
    requires
        name_word(a),
        name_word(b),
        x.len() > 0 ==> mark(x[0]),
        y.len() > 0 ==> mark(y[0]),
        a + x == b + y,
    ensures
        a == b,
        x == y,
{
    lemma_cut(a, b, x, y, |c: char| mark(c));
}

/// A parameter or field is settled by its text, up to where its type ends.
proof fn lemma_entry(a: Entry, b: Entry, x: Seq<char>, y: Seq<char>)
    requires
        name_word(a.name),
        name_word(b.name),
        readable(a.ty),
        readable(b.ty),
        ends(x),
        ends(y),
        entry_text(a) + x == entry_text(b) + y,
    ensures
        a == b,
        x == y,
{
    lemma_marks();
    let colon = seq![':', ' '];
    let p = colon + (type_text(a.ty) + x);
    let q = colon + (type_text(b.ty) + y);
    let mark_word = seq!['u', 's', 'i', 'n', 'g'];
    if a.using && b.using {
        assert(entry_text(a) + x =~= "using "@ + (a.name + p));
        assert(entry_text(b) + y =~= "using "@ + (b.name + q));
        lemma_drop_start("using "@, a.name + p, b.name + q);
    } else if a.using {
        assert(entry_text(a) + x =~= mark_word + (seq![' '] + (a.name + p)));
        assert(entry_text(b) + y =~= b.name + q);
        lemma_name(mark_word, b.name, seq![' '] + (a.name + p), q);
        assert((seq![' '] + (a.name + p))[0] == ' ');
    } else if b.using {
        assert(entry_text(a) + x =~= a.name + p);
        assert(entry_text(b) + y =~= mark_word + (seq![' '] + (b.name + q)));
        lemma_name(a.name, mark_word, p, seq![' '] + (b.name + q));
        assert((seq![' '] + (b.name + q))[0] == ' ');
    } else {
        assert(entry_text(a) + x =~= a.name + p);
        assert(entry_text(b) + y =~= b.name + q);
    }
    lemma_name(a.name, b.name, p, q);
    lemma_drop_start(colon, type_text(a.ty) + x, type_text(b.ty) + y);
    lemma_types(a.ty, b.ty, x, y);
}

proof fn lemma_entry_first(e: Entry)
    requires
        name_word(e.name),
    ensures
        entry_text(e).len() > 0,
        !mark(entry_text(e)[0]),
{
    lemma_marks();
    if !e.using {
        assert(entry_text(e)[0] == e.name[0]);
    } else {
        assert(entry_text(e)[0] == 'u');
    }
}

proof fn lemma_entries_front(es: Seq<Entry>, x: Seq<char>)
    requires
        es.len() > 0,
        entries_read(es),
        x.len() > 0 ==> x[0] == ')',
    ensures
        ({
            let rest = if es.len() == 1 {
                x
            } else {
                seq![',', ' '] + (entries_text(es.drop_first()) + x)
            };
            &&& entries_text(es) + x == entry_text(es[0]) + rest
            &&& ends(rest)
            &&& (es.len() > 1) == (rest.len() > 0 && rest[0] == ',')
            &&& entries_text(es).len() > 0 && !mark(entries_text(es)[0])
            &&& entries_read(es.drop_first())
        }),
{
    lemma_literals();
    let parts = entry_texts(es);
    lemma_joined_front(parts, ", "@);
    lemma_entry_first(es[0]);
    assert(entries_text(es)[0] == entry_text(es[0])[0]);
    if es.len() == 1 {
        assert(entries_text(es) + x =~= entry_text(es[0]) + x);
    } else {
        assert(parts.drop_first() =~= entry_texts(es.drop_first()));
        let rest = seq![',', ' '] + (entries_text(es.drop_first()) + x);
        assert(rest[0] == ',');
        assert(entries_text(es) + x =~= entry_text(es[0]) + rest);
    }
}

/// Parameters and fields are settled by their text, up to where the list closes.
proof fn lemma_entries(a: Seq<Entry>, b: Seq<Entry>, x: Seq<char>, y: Seq<char>)
    requires
        entries_read(a),
        entries_read(b),
        x.len() > 0 ==> x[0] == ')',
        y.len() > 0 ==> y[0] == ')',
        entries_text(a) + x == entries_text(b) + y,
    ensures
        a == b,
        x == y,
    decreases a.len(),
{
    let whole = entries_text(a) + x;
    if a.len() > 0 {
        lemma_entries_front(a, x);
        assert(whole[0] == entries_text(a)[0]);
    } else {
        assert(whole =~= x);
    }
    if b.len() > 0 {
        lemma_entries_front(b, y);
        assert((entries_text(b) + y)[0] == entries_text(b)[0]);
    } else {
        assert(entries_text(b) + y =~= y);
    }
    if a.len() == 0 || b.len() == 0 {
        assert(a =~= b);
    } else {
        let sep = seq![',', ' '];
        let p = if a.len() == 1 {
            x
        } else {
            sep + (entries_text(a.drop_first()) + x)
        };
        let q = if b.len() == 1 {
            y
        } else {
            sep + (entries_text(b.drop_first()) + y)
        };
        lemma_entry(a[0], b[0], p, q);
        if a.len() > 1 {
            lemma_drop_start(
                sep,
                entries_text(a.drop_first()) + x,
                entries_text(b.drop_first()) + y,
            );
            lemma_entries(a.drop_first(), b.drop_first(), x, y);
            assert(a =~= seq![a[0]] + a.drop_first());
            assert(b =~= seq![b[0]] + b.drop_first());
        } else {
            assert(a =~= b);
        }
    }
}

proof fn lemma_params(ps: Seq<Param>)
    ensures
        params_text(ps) == entries_text(param_entries(ps)),
        params_read(ps) ==> entries_read(param_entries(ps)),
{
    let es = param_entries(ps);
    assert(Seq::new(ps.len(), |i: int| param_text(ps[i])) =~= entry_texts(es));
    if params_read(ps) {
        assert forall|i: int| 0 <= i < es.len() implies name_word((#[trigger] es[i]).name)
            && readable(es[i].ty) by {
            assert(param_reads(ps[i]));
        }
    }
}

proof fn lemma_fields(fs: Seq<Field>)
    ensures
        fields_text(fs) == entries_text(field_entries(fs)),
        fields_read(fs) ==> entries_read(field_entries(fs)),
{
    lemma_marks();
    let es = field_entries(fs);
    assert forall|i: int| 0 <= i < fs.len() implies field_text(fs[i]) == #[trigger] entry_text(
        es[i],
    ) by {
        assert(field_text(fs[i]) =~= entry_text(es[i]));
    }
    assert(Seq::new(fs.len(), |i: int| field_text(fs[i])) =~= entry_texts(es));
    if fields_read(fs) {
        assert forall|i: int| 0 <= i < es.len() implies name_word((#[trigger] es[i]).name)
            && readable(es[i].ty) by {
            assert(field_reads(fs[i]));
        }
    }
}

proof fn lemma_same_params(a: Seq<Param>, b: Seq<Param>)
    requires
        param_entries(a) == param_entries(b),
    ensures
        same_params(a, b),
{
    assert(param_entries(a).len() == a.len());
    assert(param_entries(b).len() == b.len());
    assert forall|i: int| 0 <= i < a.len() implies (#[trigger] a[i]).name@ == b[i].name@ && a[i].ty@
        == b[i].ty@ && a[i].using == b[i].using by {
        let e = param_entries(a)[i];
        assert(e == Entry { using: a[i].using, name: a[i].name@, ty: a[i].ty@ });
        assert(e == param_entries(b)[i]);
        assert(e == Entry { using: b[i].using, name: b[i].name@, ty: b[i].ty@ });
    }
}

proof fn lemma_same_fields(a: Seq<Field>, b: Seq<Field>)
    requires
        field_entries(a) == field_entries(b),
    ensures
        same_fields(a, b),
{
    assert(field_entries(a).len() == a.len());
    assert(field_entries(b).len() == b.len());
    assert forall|i: int| 0 <= i < a.len() implies (#[trigger] a[i]).name@ == b[i].name@ && a[i].ty@
        == b[i].ty@ by {
        let e = field_entries(a)[i];
        assert(e == Entry { using: false, name: a[i].name@, ty: a[i].ty@ });
        assert(e == field_entries(b)[i]);
        assert(e == Entry { using: false, name: b[i].name@, ty: b[i].ty@ });
    }
}

/// Generic parameters are settled by their text, up to where the list closes.
proof fn lemma_names(a: Seq<String>, b: Seq<String>, x: Seq<char>, y: Seq<char>)
    requires
        name_words(a),
        name_words(b),
        a.len() > 0,
        b.len() > 0,
        x.len() > 0 && x[0] == '>',
        y.len() > 0 && y[0] == '>',
        joined(texts(a), ", "@) + x == joined(texts(b), ", "@) + y,
    ensures
        same_names(a, b),
        x == y,
    decreases a.len(),
{
    lemma_literals();
    let sep = seq![',', ' '];
    lemma_joined_front(texts(a), ", "@);
    lemma_joined_front(texts(b), ", "@);
    assert(texts(a).drop_first() =~= texts(a.drop_first()));
    assert(texts(b).drop_first() =~= texts(b.drop_first()));
    let p = parts_rest(texts(a), ", "@) + x;
    let q = parts_rest(texts(b), ", "@) + y;
    assert(joined(texts(a), ", "@) + x =~= a[0]@ + p);
    assert(joined(texts(b), ", "@) + y =~= b[0]@ + q);
    assert(p[0] == (if a.len() > 1 {
        ','
    } else {
        '>'
    }));
    assert(q[0] == (if b.len() > 1 {
        ','
    } else {
        '>'
    }));
    lemma_name(a[0]@, b[0]@, p, q);
    if a.len() > 1 {
        let r = joined(texts(a.drop_first()), ", "@) + x;
        let s = joined(texts(b.drop_first()), ", "@) + y;
        assert(p =~= sep + r);
        assert(q =~= sep + s);
        lemma_drop_start(sep, r, s);
        lemma_names(a.drop_first(), b.drop_first(), x, y);
        assert forall|i: int| 0 <= i < a.len() implies (#[trigger] a[i])@ == b[i]@ by {
            if i > 0 {
                assert(a.drop_first()[i - 1] == a[i]);
                assert(b.drop_first()[i - 1] == b[i]);
            }
        }
    } else {
        assert(p =~= x);
        assert(q =~= y);
    }
}

/// A name and its generic parameters are settled by their text, up to what follows.
proof fn lemma_head(
    m: Seq<char>,
    a: Seq<String>,
    x: Seq<char>,
    n: Seq<char>,
    b: Seq<String>,
    y: Seq<char>,
)
    requires
        name_word(m),
        name_word(n),
        name_words(a),
        name_words(b),
        x.len() > 0 && (x[0] == ' ' || x[0] == '('),
        y.len() > 0 && (y[0] == ' ' || y[0] == '('),
        m + generics_text(a) + x == n + generics_text(b) + y,
    ensures
        m == n,
        same_names(a, b),
        x == y,
{
    lemma_literals();
    let p = generics_text(a) + x;
    let q = generics_text(b) + y;
    assert(m + generics_text(a) + x =~= m + p);
    assert(n + generics_text(b) + y =~= n + q);
    assert(p[0] == (if a.len() > 0 {
        '<'
    } else {
        x[0]
    }));
    assert(q[0] == (if b.len() > 0 {
        '<'
    } else {
        y[0]
    }));
    lemma_name(m, n, p, q);
    if a.len() > 0 {
        let open = seq!['<'];
        let close = seq!['>'];
        let r = joined(texts(a), ", "@) + (close + x);
        let s = joined(texts(b), ", "@) + (close + y);
        assert(p =~= open + r);
        assert(q =~= open + s);
        lemma_drop_start(open, r, s);
        lemma_names(a, b, close + x, close + y);
        lemma_drop_start(close, x, y);
    } else {
        assert(p =~= x);
        assert(q =~= y);
    }
}

/// Parameters and a return type are settled by their text.
proof fn lemma_call(p: Seq<Param>, r: TypeTree, q: Seq<Param>, s: TypeTree)
    requires
        params_read(p),
        params_read(q),
        readable(r),
        readable(s),
        params_text(p) + ") -> "@ + type_text(r) == params_text(q) + ") -> "@ + type_text(s),
    ensures
        same_params(p, q),
        r == s,
{
    lemma_literals();
    lemma_params(p);
    lemma_params(q);
    let none = Seq::<char>::empty();
    let arrow = ") -> "@;
    let x = arrow + (type_text(r) + none);
    let y = arrow + (type_text(s) + none);
    assert(params_text(p) + arrow + type_text(r) =~= entries_text(param_entries(p)) + x);
    assert(params_text(q) + arrow + type_text(s) =~= entries_text(param_entries(q)) + y);
    lemma_entries(param_entries(p), param_entries(q), x, y);
    lemma_same_params(p, q);
    lemma_drop_start(arrow, type_text(r) + none, type_text(s) + none);
    lemma_types(r, s, none, none);
}

/// Two structs with the same signature have the same name, the same generic
/// parameters, and the same fields, each in the same order.
pub proof fn law_a_struct_signature_reads_back(a: Struct, b: Struct)
    requires
        name_word(a.name@) && name_words(a.generics@) && fields_read(a.fields@),
        name_word(b.name@) && name_words(b.generics@) && fields_read(b.fields@),
        struct_text(a) == struct_text(b),
    ensures
        a.name@ == b.name@,
        same_names(a.generics@, b.generics@),
        same_fields(a.fields@, b.fields@),
{
    lemma_marks();
    lemma_fields(a.fields@);
    lemma_fields(b.fields@);
    let x = " { "@ + fields_text(a.fields@);
    let y = " { "@ + fields_text(b.fields@);
    let p = a.name@ + generics_text(a.generics@) + x;
    let q = b.name@ + generics_text(b.generics@) + y;
    assert(struct_text(a) =~= "struct "@ + (p + " }"@));
    assert(struct_text(b) =~= "struct "@ + (q + " }"@));
    lemma_drop_start("struct "@, p + " }"@, q + " }"@);
    lemma_drop_end(p, q, " }"@);
    lemma_head(a.name@, a.generics@, x, b.name@, b.generics@, y);
    lemma_drop_start(" { "@, fields_text(a.fields@), fields_text(b.fields@));
    let none = Seq::<char>::empty();
    assert(fields_text(a.fields@) + none =~= fields_text(a.fields@));
    assert(fields_text(b.fields@) + none =~= fields_text(b.fields@));
    lemma_entries(field_entries(a.fields@), field_entries(b.fields@), none, none);
    lemma_same_fields(a.fields@, b.fields@);
}

/// What a function's signature begins with.
spec fn func_lead(is_async: bool) -> Seq<char> {
    (if is_async {
        "async func"@
    } else {
        "func"@
    }) + " "@
}

proof fn lemma_func_lead(f: Func)
    ensures
        func_text(f) == func_lead(f.is_async) + (f.name@ + generics_text(f.generics@) + ("("@ + (
        params_text(f.params@) + ") -> "@ + type_text(f.ret@)))),
        func_text(f).len() > 0,
        func_text(f)[0] == (if f.is_async {
            'a'
        } else {
            'f'
        }),
{
    lemma_marks();
    let lead = func_lead(f.is_async);
    assert(lead[0] == (if f.is_async {
        'a'
    } else {
        'f'
    }));
    assert(func_text(f) =~= lead + (f.name@ + generics_text(f.generics@) + ("("@ + (params_text(
        f.params@,
    ) + ") -> "@ + type_text(f.ret@)))));
}

/// Two functions with the same signature have the same name, generic parameters,
/// parameters and return type, and both or neither are async.
pub proof fn law_a_function_signature_reads_back(a: Func, b: Func)
    requires
        name_word(a.name@) && name_words(a.generics@) && params_read(a.params@) && readable(a.ret@),
        name_word(b.name@) && name_words(b.generics@) && params_read(b.params@) && readable(b.ret@),
        func_text(a) == func_text(b),
    ensures
        a.is_async == b.is_async,
        a.name@ == b.name@,
        same_names(a.generics@, b.generics@),
        same_params(a.params@, b.params@),
        a.ret@ == b.ret@,
{
    lemma_marks();
    lemma_literals();
    let f = params_text(a.params@) + ") -> "@ + type_text(a.ret@);
    let g = params_text(b.params@) + ") -> "@ + type_text(b.ret@);
    let x = "("@ + f;
    let y = "("@ + g;
    let p = a.name@ + generics_text(a.generics@) + x;
    let q = b.name@ + generics_text(b.generics@) + y;
    lemma_func_lead(a);
    lemma_func_lead(b);
    assert(a.is_async == b.is_async);
    lemma_drop_start(func_lead(a.is_async), p, q);
    lemma_head(a.name@, a.generics@, x, b.name@, b.generics@, y);
    lemma_drop_start("("@, f, g);
    lemma_call(a.params@, a.ret@, b.params@, b.ret@);
}

/// Two foreign functions with the same signature have the same name, parameters and
/// return type.
pub proof fn law_a_foreign_signature_reads_back(a: ForeignFunc, b: ForeignFunc)
    requires
        name_word(a.name@) && params_read(a.params@) && readable(a.ret@),
        name_word(b.name@) && params_read(b.params@) && readable(b.ret@),
        foreign_text(a) == foreign_text(b),
    ensures
        a.name@ == b.name@,
        same_params(a.params@, b.params@),
        a.ret@ == b.ret@,
{
    lemma_marks();
    lemma_literals();
    let f = params_text(a.params@) + ") -> "@ + type_text(a.ret@);
    let g = params_text(b.params@) + ") -> "@ + type_text(b.ret@);
    assert(foreign_text(a) =~= "func "@ + (a.name@ + ("("@ + f)));
    assert(foreign_text(b) =~= "func "@ + (b.name@ + ("("@ + g)));
    lemma_drop_start("func "@, a.name@ + ("("@ + f), b.name@ + ("("@ + g));
    assert(("("@ + f)[0] == '(');
    assert(("("@ + g)[0] == '(');
    lemma_name(a.name@, b.name@, "("@ + f, "("@ + g);
    lemma_drop_start("("@, f, g);
    lemma_call(a.params@, a.ret@, b.params@, b.ret@);
}

/// Two interface methods with the same text have the same name, parameters and
/// return type.
pub proof fn law_a_method_signature_reads_back(a: MethodSig, b: MethodSig)
    requires
        name_word(a.name@) && params_read(a.params@) && readable(a.ret@),
        name_word(b.name@) && params_read(b.params@) && readable(b.ret@),
        method_text(a) == method_text(b),
    ensures
        a.name@ == b.name@,
        same_params(a.params@, b.params@),
        a.ret@ == b.ret@,
{
    lemma_literals();
    let f = params_text(a.params@) + ") -> "@ + type_text(a.ret@);
    let g = params_text(b.params@) + ") -> "@ + type_text(b.ret@);
    assert(method_text(a) =~= a.name@ + ("("@ + f));
    assert(method_text(b) =~= b.name@ + ("("@ + g));
    assert(("("@ + f)[0] == '(');
    assert(("("@ + g)[0] == '(');
    lemma_name(a.name@, b.name@, "("@ + f, "("@ + g);
    lemma_drop_start("("@, f, g);
    lemma_call(a.params@, a.ret@, b.params@, b.ret@);
}

/// Whether a variant can be written in dusk.
pub open spec fn variant_reads(v: Variant) -> bool {
    name_word(v.name@) && fields_read(v.fields@)
}

/// Whether each of several variants can be written in dusk.
pub open spec fn variants_read(vs: Seq<Variant>) -> bool {
    forall|i: int| 0 <= i < vs.len() ==> variant_reads(#[trigger] vs[i])
}

/// Whether two lists hold the same variants.
pub open spec fn same_variants(a: Seq<Variant>, b: Seq<Variant>) -> bool {
    a.len() == b.len() && forall|i: int|
        0 <= i < a.len() ==> (#[trigger] a[i]).name@ == b[i].name@ && same_fields(
            a[i].fields@,
            b[i].fields@,
        )
}

spec fn variant_texts(vs: Seq<Variant>) -> Seq<Seq<char>> {
    Seq::new(vs.len(), |i: int| variant_text(vs[i]))
}

/// A variant is settled by its text, up to the next one.
proof fn lemma_variant(a: Variant, b: Variant, x: Seq<char>, y: Seq<char>)
    requires
        variant_reads(a),
        variant_reads(b),
        x.len() > 0 ==> x[0] == ',',
        y.len() > 0 ==> y[0] == ',',
        variant_text(a) + x == variant_text(b) + y,
    ensures
        a.name@ == b.name@,
        same_fields(a.fields@, b.fields@),
        x == y,
{
    lemma_literals();
    lemma_fields(a.fields@);
    lemma_fields(b.fields@);
    let f = entries_text(field_entries(a.fields@)) + (")"@ + x);
    let g = entries_text(field_entries(b.fields@)) + (")"@ + y);
    let p = if a.fields@.len() == 0 {
        x
    } else {
        "("@ + f
    };
    let q = if b.fields@.len() == 0 {
        y
    } else {
        "("@ + g
    };
    assert(variant_text(a) + x =~= a.name@ + p);
    assert(variant_text(b) + y =~= b.name@ + q);
    assert(a.fields@.len() > 0 ==> p[0] == '(');
    assert(b.fields@.len() > 0 ==> q[0] == '(');
    lemma_name(a.name@, b.name@, p, q);
    if a.fields@.len() > 0 {
        lemma_drop_start("("@, f, g);
        assert((")"@ + x)[0] == ')');
        assert((")"@ + y)[0] == ')');
        lemma_entries(field_entries(a.fields@), field_entries(b.fields@), ")"@ + x, ")"@ + y);
        lemma_same_fields(a.fields@, b.fields@);
        lemma_drop_start(")"@, x, y);
    }
}

proof fn lemma_variants(a: Seq<Variant>, b: Seq<Variant>)
    requires
        variants_read(a),
        variants_read(b),
        joined(variant_texts(a), ", "@) == joined(variant_texts(b), ", "@),
    ensures
        same_variants(a, b),
    decreases a.len(),
{
    lemma_literals();
    if a.len() > 0 {
        lemma_joined_front(variant_texts(a), ", "@);
        assert(variant_text(a[0]).len() > 0);
    }
    if b.len() > 0 {
        lemma_joined_front(variant_texts(b), ", "@);
        assert(variant_text(b[0]).len() > 0);
    }
    if a.len() > 0 && b.len() > 0 {
        let x = parts_rest(variant_texts(a), ", "@);
        let y = parts_rest(variant_texts(b), ", "@);
        assert(a.len() > 1 ==> x[0] == ',');
        assert(b.len() > 1 ==> y[0] == ',');
        lemma_variant(a[0], b[0], x, y);
        if a.len() > 1 {
            assert(variant_texts(a).drop_first() =~= variant_texts(a.drop_first()));
            assert(variant_texts(b).drop_first() =~= variant_texts(b.drop_first()));
            lemma_drop_start(
                ", "@,
                joined(variant_texts(a.drop_first()), ", "@),
                joined(variant_texts(b.drop_first()), ", "@),
            );
            lemma_variants(a.drop_first(), b.drop_first());
            assert forall|i: int| 0 <= i < a.len() implies (#[trigger] a[i]).name@ == b[i].name@
                && same_fields(a[i].fields@, b[i].fields@) by {
                if i > 0 {
                    assert(a.drop_first()[i - 1] == a[i]);
                    assert(b.drop_first()[i - 1] == b[i]);
                }
            }
        }
    }
}

/// Two enums with the same signature have the same name, the same generic
/// parameters, and the same variants with the same fields, each in the same order.
pub proof fn law_an_enum_signature_reads_back(a: Enum, b: Enum)
    requires
        name_word(a.name@) && name_words(a.generics@) && variants_read(a.variants@),
        name_word(b.name@) && name_words(b.generics@) && variants_read(b.variants@),
        enum_text(a) == enum_text(b),
    ensures
        a.name@ == b.name@,
        same_names(a.generics@, b.generics@),
        same_variants(a.variants@, b.variants@),
{
    lemma_marks();
    let f = joined(variant_texts(a.variants@), ", "@);
    let g = joined(variant_texts(b.variants@), ", "@);
    assert(variant_texts(a.variants@) =~= Seq::new(
        a.variants@.len(),
        |i: int| variant_text(a.variants@[i]),
    ));
    assert(variant_texts(b.variants@) =~= Seq::new(
        b.variants@.len(),
        |i: int| variant_text(b.variants@[i]),
    ));
    let x = " { "@ + f;
    let y = " { "@ + g;
    let p = a.name@ + generics_text(a.generics@) + x;
    let q = b.name@ + generics_text(b.generics@) + y;
    assert(enum_text(a) =~= "enum "@ + (p + " }"@));
    assert(enum_text(b) =~= "enum "@ + (q + " }"@));
    lemma_drop_start("enum "@, p + " }"@, q + " }"@);
    lemma_drop_end(p, q, " }"@);
    lemma_head(a.name@, a.generics@, x, b.name@, b.generics@, y);
    lemma_drop_start(" { "@, f, g);
    lemma_variants(a.variants@, b.variants@);
}

/// Whether no name in a type has a semicolon.
pub open spec fn calm(t: TypeTree) -> bool
    decreases t,
{
    match t {
        TypeTree::Named(name, args) => !name.contains(';') && all_calm(args),
        TypeTree::Ptr(inner) => calm(*inner),
        TypeTree::RawPtr(inner) => calm(*inner),
        TypeTree::Slice(inner) => calm(*inner),
        TypeTree::Array(inner, _) => calm(*inner),
        TypeTree::Tuple(items) => all_calm(items),
        TypeTree::Func(params, ret) => all_calm(params) && calm(*ret),
        TypeTree::Unit => true,
    }
}

/// Whether no name in several types has a semicolon.
pub open spec fn all_calm(types: Seq<TypeTree>) -> bool
    decreases types,
{
    if types.len() == 0 {
        true
    } else {
        all_calm(types.drop_last()) && calm(types.last())
    }
}

spec fn free(s: Seq<char>) -> bool {
    forall|i: int| 0 <= i < s.len() ==> #[trigger] s[i] != ';'
}

proof fn lemma_free_contains(s: Seq<char>)
    requires
        !s.contains(';'),
    ensures
        free(s),
{
    assert forall|i: int| 0 <= i < s.len() implies #[trigger] s[i] != ';' by {
        if s[i] == ';' {
            assert(s.contains(';'));
        }
    }
}

proof fn lemma_free_decimal(n: nat)
    ensures
        free(decimal(n)),
    decreases n,
{
    if n >= 10 {
        lemma_free_decimal(n / 10);
    }
}

proof fn lemma_free_joined(parts: Seq<Seq<char>>, sep: Seq<char>)
    requires
        free(sep),
        forall|i: int| 0 <= i < parts.len() ==> free(#[trigger] parts[i]),
    ensures
        free(joined(parts, sep)),
    decreases parts.len(),
{
    if parts.len() > 1 {
        assert forall|i: int| 0 <= i < parts.drop_last().len() implies free(
            #[trigger] parts.drop_last()[i],
        ) by {
            assert(parts.drop_last()[i] == parts[i]);
        }
        lemma_free_joined(parts.drop_last(), sep);
        assert(free(parts[parts.len() - 1]));
    } else if parts.len() == 1 {
        assert(free(parts[0]));
    }
}

/// A type without a semicolon in a name is spelled without one.
proof fn lemma_calm(t: TypeTree)
    requires
        calm(t),
    ensures
        free(type_text(t)),
    decreases t,
{
    lemma_literals();
    match t {
        TypeTree::Named(name, args) => {
            lemma_free_contains(name);
            lemma_all_calm(args);
            lemma_free_joined(type_texts(args), ", "@);
        },
        TypeTree::Ptr(inner) => {
            lemma_calm(*inner);
        },
        TypeTree::RawPtr(inner) => {
            lemma_calm(*inner);
        },
        TypeTree::Slice(inner) => {
            lemma_calm(*inner);
        },
        TypeTree::Array(inner, n) => {
            lemma_calm(*inner);
            lemma_free_decimal(n);
        },
        TypeTree::Tuple(items) => {
            lemma_all_calm(items);
            lemma_free_joined(type_texts(items), ", "@);
        },
        TypeTree::Func(params, ret) => {
            lemma_all_calm(params);
            lemma_free_joined(type_texts(params), ", "@);
            lemma_calm(*ret);
        },
        TypeTree::Unit => {},
    }
}

proof fn lemma_all_calm(types: Seq<TypeTree>)
    requires
        all_calm(types),
    ensures
        forall|i: int| 0 <= i < type_texts(types).len() ==> free(#[trigger] type_texts(types)[i]),
    decreases types,
{
    if types.len() > 0 {
        lemma_all_calm(types.drop_last());
        lemma_calm(types.last());
        let front = type_texts(types.drop_last());
        assert forall|i: int| 0 <= i < type_texts(types).len() implies free(
            #[trigger] type_texts(types)[i],
        ) by {
            if i < front.len() {
                assert(type_texts(types)[i] == front[i]);
            }
        }
    }
}

/// Whether a method can be written in dusk, with no semicolon in a name.
pub open spec fn method_reads(m: MethodSig) -> bool {
    &&& name_word(m.name@)
    &&& params_read(m.params@)
    &&& readable(m.ret@) && calm(m.ret@)
    &&& forall|i: int| 0 <= i < m.params@.len() ==> calm((#[trigger] m.params@[i]).ty@)
}

/// Whether each of several methods can be written in dusk.
pub open spec fn methods_read(ms: Seq<MethodSig>) -> bool {
    forall|i: int| 0 <= i < ms.len() ==> method_reads(#[trigger] ms[i])
}

/// Whether two lists hold the same methods.
pub open spec fn same_methods(a: Seq<MethodSig>, b: Seq<MethodSig>) -> bool {
    a.len() == b.len() && forall|i: int|
        0 <= i < a.len() ==> (#[trigger] a[i]).name@ == b[i].name@ && same_params(
            a[i].params@,
            b[i].params@,
        ) && a[i].ret@ == b[i].ret@
}

spec fn method_texts(ms: Seq<MethodSig>) -> Seq<Seq<char>> {
    Seq::new(ms.len(), |i: int| method_text(ms[i]))
}

proof fn lemma_method_free(m: MethodSig)
    requires
        method_reads(m),
    ensures
        free(method_text(m)),
        method_text(m).len() > 0,
{
    lemma_literals();
    lemma_marks();
    let parts = Seq::new(m.params@.len(), |i: int| param_text(m.params@[i]));
    assert forall|i: int| 0 <= i < parts.len() implies free(#[trigger] parts[i]) by {
        let p = m.params@[i];
        assert(param_reads(p));
        lemma_calm(p.ty@);
        assert(parts[i] == param_text(p));
    }
    lemma_free_joined(parts, ", "@);
    lemma_calm(m.ret@);
}

proof fn lemma_methods(a: Seq<MethodSig>, b: Seq<MethodSig>)
    requires
        methods_read(a),
        methods_read(b),
        joined(method_texts(a), "; "@) == joined(method_texts(b), "; "@),
    ensures
        same_methods(a, b),
    decreases a.len(),
{
    lemma_marks();
    if a.len() > 0 {
        lemma_joined_front(method_texts(a), "; "@);
        lemma_method_free(a[0]);
    }
    if b.len() > 0 {
        lemma_joined_front(method_texts(b), "; "@);
        lemma_method_free(b[0]);
    }
    if a.len() > 0 && b.len() > 0 {
        let x = parts_rest(method_texts(a), "; "@);
        let y = parts_rest(method_texts(b), "; "@);
        assert(a.len() > 1 ==> x[0] == ';');
        assert(b.len() > 1 ==> y[0] == ';');
        lemma_cut(method_text(a[0]), method_text(b[0]), x, y, |c: char| c == ';');
        law_a_method_signature_reads_back(a[0], b[0]);
        if a.len() > 1 {
            assert(method_texts(a).drop_first() =~= method_texts(a.drop_first()));
            assert(method_texts(b).drop_first() =~= method_texts(b.drop_first()));
            lemma_drop_start(
                "; "@,
                joined(method_texts(a.drop_first()), "; "@),
                joined(method_texts(b.drop_first()), "; "@),
            );
            lemma_methods(a.drop_first(), b.drop_first());
            assert forall|i: int| 0 <= i < a.len() implies (#[trigger] a[i]).name@ == b[i].name@
                && same_params(a[i].params@, b[i].params@) && a[i].ret@ == b[i].ret@ by {
                if i > 0 {
                    assert(a.drop_first()[i - 1] == a[i]);
                    assert(b.drop_first()[i - 1] == b[i]);
                }
            }
        }
    }
}

/// Two interfaces with the same signature have the same name, the same generic
/// parameters, and the same methods, each in the same order.
pub proof fn law_an_interface_signature_reads_back(a: Interface, b: Interface)
    requires
        name_word(a.name@) && name_words(a.generics@) && methods_read(a.methods@),
        name_word(b.name@) && name_words(b.generics@) && methods_read(b.methods@),
        interface_text(a) == interface_text(b),
    ensures
        a.name@ == b.name@,
        same_names(a.generics@, b.generics@),
        same_methods(a.methods@, b.methods@),
{
    lemma_marks();
    let f = joined(method_texts(a.methods@), "; "@);
    let g = joined(method_texts(b.methods@), "; "@);
    assert(method_texts(a.methods@) =~= Seq::new(
        a.methods@.len(),
        |k: int| method_text(a.methods@[k]),
    ));
    assert(method_texts(b.methods@) =~= Seq::new(
        b.methods@.len(),
        |k: int| method_text(b.methods@[k]),
    ));
    let x = " { "@ + f;
    let y = " { "@ + g;
    let p = a.name@ + generics_text(a.generics@) + x;
    let q = b.name@ + generics_text(b.generics@) + y;
    assert(interface_text(a) =~= "interface "@ + (p + " }"@));
    assert(interface_text(b) =~= "interface "@ + (q + " }"@));
    lemma_drop_start("interface "@, p + " }"@, q + " }"@);
    lemma_drop_end(p, q, " }"@);
    lemma_head(a.name@, a.generics@, x, b.name@, b.generics@, y);
    lemma_drop_start(" { "@, f, g);
    lemma_methods(a.methods@, b.methods@);
}

/// Parts one after the other, each but the first with a separator before it.
pub open spec fn listed(parts: Seq<Seq<char>>, sep: Seq<char>) -> Seq<char> {
    parts.map(
        |i: int, part: Seq<char>|
            if i == 0 {
                part
            } else {
                sep + part
            },
    ).flatten()
}

/// Joining writes every part, in order, with one separator before each but the first.
pub proof fn law_joining_keeps_every_part(parts: Seq<Seq<char>>, sep: Seq<char>)
    ensures
        joined(parts, sep) == listed(parts, sep),
    decreases parts.len(),
{
    let put = |i: int, part: Seq<char>|
        if i == 0 {
            part
        } else {
            sep + part
        };
    let all = parts.map(put);
    all.lemma_flatten_and_flatten_alt_are_equivalent();
    if parts.len() > 0 {
        let front = parts.drop_last();
        law_joining_keeps_every_part(front, sep);
        front.map(put).lemma_flatten_and_flatten_alt_are_equivalent();
        assert(all.drop_last() =~= front.map(put));
        assert(all.last() == put(parts.len() - 1, parts.last()));
        assert(joined(parts, sep) =~= all.flatten_alt());
    }
}

/// A generic list, with angle brackets around it and `, ` between its names.
pub open spec fn angled(names: Seq<String>) -> Seq<char> {
    if names.len() == 0 {
        Seq::empty()
    } else {
        seq!['<'] + listed(names.map_values(|name: String| name@), seq![',', ' ']) + seq!['>']
    }
}

/// Generic parameters are written in angle brackets with `, ` between them, and
/// nothing is where there are none.
pub proof fn law_generics_stand_in_angle_brackets(names: Seq<String>)
    ensures
        generics_text(names) == angled(names),
{
    lemma_literals();
    law_joining_keeps_every_part(texts(names), ", "@);
    assert(texts(names) =~= names.map_values(|name: String| name@));
}

/// A parameter is its name, a colon, and its type, with `using` before it where it
/// binds the ambient allocator, and a field is written as such a parameter that does
/// not.
pub proof fn law_a_parameter_is_a_name_and_a_type(p: Param, f: Field)
    ensures
        p.using ==> param_text(p) == seq!['u', 's', 'i', 'n', 'g', ' '] + p.name@ + seq![':', ' ']
            + type_text(p.ty@),
        !p.using ==> param_text(p) == p.name@ + seq![':', ' '] + type_text(p.ty@),
        field_text(f) == f.name@ + seq![':', ' '] + type_text(f.ty@),
{
    lemma_marks();
    assert(Seq::<char>::empty() + p.name@ =~= p.name@);
}

/// Parameters and fields are listed one by one, with `, ` between them.
pub proof fn law_parameters_and_fields_are_listed(ps: Seq<Param>, fs: Seq<Field>)
    ensures
        params_text(ps) == listed(ps.map_values(|p: Param| param_text(p)), seq![',', ' ']),
        fields_text(fs) == listed(fs.map_values(|f: Field| field_text(f)), seq![',', ' ']),
{
    lemma_literals();
    let p = ps.map_values(|p: Param| param_text(p));
    let f = fs.map_values(|f: Field| field_text(f));
    law_joining_keeps_every_part(p, ", "@);
    law_joining_keeps_every_part(f, ", "@);
    assert(Seq::new(ps.len(), |i: int| param_text(ps[i])) =~= p);
    assert(Seq::new(fs.len(), |i: int| field_text(fs[i])) =~= f);
}

/// A function's signature begins with `async` where the function is, then has
/// `func`, the name, the generic parameters right behind it, the parameters in
/// parens, and the return type behind an arrow. A foreign function and a method are
/// written the same way, the one without generic parameters, the other without
/// `func` too.
pub proof fn law_a_function_shows_all_it_takes_and_gives(f: Func, e: ForeignFunc, m: MethodSig)
    ensures
        func_text(f) == (if f.is_async {
            seq!['a', 's', 'y', 'n', 'c', ' ']
        } else {
            Seq::empty()
        }) + seq!['f', 'u', 'n', 'c', ' '] + f.name@ + angled(f.generics@) + seq!['('] + listed(
            f.params@.map_values(|p: Param| param_text(p)),
            seq![',', ' '],
        ) + seq![')', ' ', '-', '>', ' '] + type_text(f.ret@),
        foreign_text(e) == seq!['f', 'u', 'n', 'c', ' '] + e.name@ + seq!['('] + listed(
            e.params@.map_values(|p: Param| param_text(p)),
            seq![',', ' '],
        ) + seq![')', ' ', '-', '>', ' '] + type_text(e.ret@),
        method_text(m) == m.name@ + seq!['('] + listed(
            m.params@.map_values(|p: Param| param_text(p)),
            seq![',', ' '],
        ) + seq![')', ' ', '-', '>', ' '] + type_text(m.ret@),
{
    lemma_marks();
    lemma_literals();
    law_generics_stand_in_angle_brackets(f.generics@);
    law_parameters_and_fields_are_listed(f.params@, Seq::empty());
    law_parameters_and_fields_are_listed(e.params@, Seq::empty());
    law_parameters_and_fields_are_listed(m.params@, Seq::empty());
    let lead = (if f.is_async {
        seq!['a', 's', 'y', 'n', 'c', ' ']
    } else {
        Seq::empty()
    }) + seq!['f', 'u', 'n', 'c', ' '];
    assert((if f.is_async {
        "async func"@
    } else {
        "func"@
    }) + " "@ =~= lead);
}

/// A struct's signature is `struct`, the name with its generic parameters right
/// behind it, and every field between braces.
pub proof fn law_a_struct_shows_its_parameters_and_fields(s: Struct)
    ensures
        struct_text(s) == seq!['s', 't', 'r', 'u', 'c', 't', ' '] + s.name@ + angled(s.generics@)
            + seq![' ', '{', ' '] + listed(
            s.fields@.map_values(|f: Field| field_text(f)),
            seq![',', ' '],
        ) + seq![' ', '}'],
{
    lemma_marks();
    law_generics_stand_in_angle_brackets(s.generics@);
    law_parameters_and_fields_are_listed(Seq::empty(), s.fields@);
}

/// An enum's signature is `enum`, the name with its generic parameters right behind
/// it, and every variant between braces. A variant with fields has them in parens.
pub proof fn law_an_enum_shows_its_parameters_and_variants(e: Enum, v: Variant)
    ensures
        enum_text(e) == seq!['e', 'n', 'u', 'm', ' '] + e.name@ + angled(e.generics@) + seq![
            ' ',
            '{',
            ' ',
        ] + listed(e.variants@.map_values(|v: Variant| variant_text(v)), seq![',', ' ']) + seq![
            ' ',
            '}',
        ],
        variant_text(v) == (if v.fields@.len() == 0 {
            v.name@
        } else {
            v.name@ + seq!['('] + listed(
                v.fields@.map_values(|f: Field| field_text(f)),
                seq![',', ' '],
            ) + seq![')']
        }),
{
    lemma_marks();
    lemma_literals();
    law_generics_stand_in_angle_brackets(e.generics@);
    law_parameters_and_fields_are_listed(Seq::empty(), v.fields@);
    let parts = e.variants@.map_values(|v: Variant| variant_text(v));
    law_joining_keeps_every_part(parts, ", "@);
    assert(Seq::new(e.variants@.len(), |i: int| variant_text(e.variants@[i])) =~= parts);
}

/// An interface's signature is `interface`, the name with its generic parameters
/// right behind it, and every method between braces, with `; ` between them.
pub proof fn law_an_interface_shows_its_parameters_and_methods(i: Interface)
    ensures
        interface_text(i) == seq!['i', 'n', 't', 'e', 'r', 'f', 'a', 'c', 'e', ' '] + i.name@
            + angled(i.generics@) + seq![' ', '{', ' '] + listed(
            i.methods@.map_values(|m: MethodSig| method_text(m)),
            seq![';', ' '],
        ) + seq![' ', '}'],
{
    lemma_marks();
    law_generics_stand_in_angle_brackets(i.generics@);
    let parts = i.methods@.map_values(|m: MethodSig| method_text(m));
    law_joining_keeps_every_part(parts, "; "@);
    assert(Seq::new(i.methods@.len(), |k: int| method_text(i.methods@[k])) =~= parts);
}

/// A type is spelled from the spellings of its parts: arguments in angle brackets,
/// items and parameters in parens, `*` and `*raw ` before what is pointed to, and
/// `[]` or `[N]` behind an element, which stands in parens where it is a pointer or
/// a function.
pub proof fn law_a_type_is_spelled_from_its_parts(
    name: Seq<char>,
    args: Seq<TypeTree>,
    t: Box<TypeTree>,
    n: nat,
)
    ensures
        ({
            let inner = listed(args.map_values(|a: TypeTree| type_text(a)), seq![',', ' ']);
            let element = match *t {
                TypeTree::Ptr(_) => seq!['('] + type_text(*t) + seq![')'],
                TypeTree::RawPtr(_) => seq!['('] + type_text(*t) + seq![')'],
                TypeTree::Func(_, _) => seq!['('] + type_text(*t) + seq![')'],
                _ => type_text(*t),
            };
            &&& args.len() == 0 ==> type_text(TypeTree::Named(name, args)) == name
            &&& args.len() > 0 ==> type_text(TypeTree::Named(name, args)) == name + seq!['<']
                + inner + seq!['>']
            &&& type_text(TypeTree::Ptr(t)) == seq!['*'] + type_text(*t)
            &&& type_text(TypeTree::RawPtr(t)) == seq!['*', 'r', 'a', 'w', ' '] + type_text(*t)
            &&& type_text(TypeTree::Slice(t)) == element + seq!['[', ']']
            &&& type_text(TypeTree::Array(t, n)) == element + seq!['['] + decimal(n) + seq![']']
            &&& type_text(TypeTree::Tuple(args)) == seq!['('] + inner + seq![')']
            &&& type_text(TypeTree::Func(args, t)) == seq!['('] + inner + seq![
                ')',
                ' ',
                '-',
                '>',
                ' ',
            ] + type_text(*t)
            &&& type_text(TypeTree::Unit) == seq!['v', 'o', 'i', 'd']
        }),
{
    lemma_literals();
    lemma_texts_len(args);
    let parts = args.map_values(|a: TypeTree| type_text(a));
    assert(type_texts(args) =~= parts);
    law_joining_keeps_every_part(parts, ", "@);
}

/// A number in decimal is made of digits, has no zero in front unless it is zero,
/// and is worth the number.
pub proof fn law_a_decimal_is_worth_its_number(n: nat)
    ensures
        decimal(n).len() > 0,
        forall|i: int| 0 <= i < decimal(n).len() ==> '0' <= #[trigger] decimal(n)[i] <= '9',
        decimal(n)[0] == '0' ==> n == 0,
        decimal(n).fold_left(0int, |sum: int, c: char| sum * 10 + (c as int - '0' as int)) == n,
    decreases n,
{
    let worth = |sum: int, c: char| sum * 10 + (c as int - '0' as int);
    let s = decimal(n);
    if n >= 10 {
        let front = decimal(n / 10);
        law_a_decimal_is_worth_its_number(n / 10);
        assert(s.drop_last() =~= front);
        assert(s.last() == digit(n % 10));
        assert(s[0] == front[0]);
    } else {
        assert(s.drop_last() =~= Seq::empty());
        assert(s.drop_last().fold_left(0int, worth) == 0);
        assert(s.last() == digit(n));
    }
}

/// What a type is keeps all that is written of it.
pub proof fn law_a_tree_keeps_what_a_type_says(
    name: String,
    args: Vec<Type>,
    t: Box<Type>,
    n: u64,
)
    ensures
        Type::Named(name, args)@ == TypeTree::Named(name@, args@.map_values(|a: Type| a@)),
        Type::Ptr(t)@ == TypeTree::Ptr(Box::new((*t)@)),
        Type::RawPtr(t)@ == TypeTree::RawPtr(Box::new((*t)@)),
        Type::Slice(t)@ == TypeTree::Slice(Box::new((*t)@)),
        Type::Array(t, n)@ == TypeTree::Array(Box::new((*t)@), n as nat),
        Type::Tuple(args)@ == TypeTree::Tuple(args@.map_values(|a: Type| a@)),
        Type::Func(args, t)@ == TypeTree::Func(
            args@.map_values(|a: Type| a@),
            Box::new((*t)@),
        ),
        Type::Unit@ == TypeTree::Unit,
{
    lemma_trees(args@);
    assert(trees(args@) =~= args@.map_values(|a: Type| a@));
}

/// A header is the keyword of its kind, a space, and the name, without the white
/// space the name ends in, and the keyword alone where the name is all white space.
pub proof fn law_a_header_is_a_keyword_and_a_name(
    kind: SymbolKind,
    name: Seq<char>,
    spaces: Seq<char>,
)
    requires
        name.len() > 0 ==> !is_space(name.last()),
        forall|i: int| 0 <= i < spaces.len() ==> is_space(#[trigger] spaces[i]),
    ensures
        ({
            let keyword = match kind {
                SymbolKind::Function => seq!['f', 'u', 'n', 'c'],
                SymbolKind::Struct => seq!['s', 't', 'r', 'u', 'c', 't'],
                SymbolKind::Enum => seq!['e', 'n', 'u', 'm'],
                SymbolKind::Interface => seq!['i', 'n', 't', 'e', 'r', 'f', 'a', 'c', 'e'],
                SymbolKind::Namespace => seq!['m', 'o', 'n', 'a', 'd'],
            };
            header_text(kind, name + spaces) == (if name.len() == 0 {
                keyword
            } else {
                keyword + seq![' '] + name
            })
        }),
{
    lemma_marks();
    reveal_strlit("struct");
    reveal_strlit("enum");
    reveal_strlit("interface");
    reveal_strlit("monad");
    assert("struct"@ =~= seq!['s', 't', 'r', 'u', 'c', 't']);
    assert("enum"@ =~= seq!['e', 'n', 'u', 'm']);
    assert("interface"@ =~= seq!['i', 'n', 't', 'e', 'r', 'f', 'a', 'c', 'e']);
    assert("monad"@ =~= seq!['m', 'o', 'n', 'a', 'd']);
    let keyword = kind_word(kind);
    let whole = keyword + " "@ + (name + spaces);
    let none = Seq::<char>::empty();
    assert(!is_space(keyword[0]) && !is_space(keyword.last()));
    if name.len() == 0 {
        let rest = " "@ + spaces;
        assert forall|i: int| 0 <= i < rest.len() implies is_space(#[trigger] rest[i]) by {
            if i > 0 {
                assert(rest[i] == spaces[i - 1]);
            }
        }
        assert(whole =~= none + keyword + rest);
        law_outer_white_space_makes_no_difference(none, keyword, rest);
    } else {
        let core = keyword + " "@ + name;
        assert(core[0] == keyword[0] && core.last() == name.last());
        assert(whole =~= none + core + spaces);
        law_outer_white_space_makes_no_difference(none, core, spaces);
    }
}

} // verus!
