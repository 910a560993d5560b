//! Rendering a declaration back to its dusk spelling.

use vstd::prelude::*;
use vstd::string::*;

use crate::compiler::ast::{
    Enum, Field, ForeignFunc, Func, Interface, MethodSig, Param, Struct, Type, Variant,
};
#[allow(unused_imports)]
use crate::compiler::ast::{lemma_trees, trees, TypeTree};
use crate::protocol::SymbolKind;
use crate::text::trim;
#[allow(unused_imports)]
use crate::text::trimmed;

verus! {

/// Parts written one after the other with a separator between them.
pub open spec fn joined(parts: Seq<Seq<char>>, sep: Seq<char>) -> Seq<char>
    decreases parts.len(),
{
    if parts.len() == 0 {
        Seq::empty()
    } else if parts.len() == 1 {
        parts[0]
    } else {
        joined(parts.drop_last(), sep) + sep + parts.last()
    }
}

/// What each of several strings holds.
pub open spec fn texts(strings: Seq<String>) -> Seq<Seq<char>> {
    Seq::new(strings.len(), |i: int| strings[i]@)
}

/// Writes parts one after the other with a separator between them.
pub fn join(parts: &Vec<String>, sep: &str) -> (out: String)
    ensures
        out@ == joined(texts(parts@), sep@),
{
    let mut out = String::new();
    let mut i: usize = 0;
    while i < parts.len()
        invariant
            0 <= i <= parts@.len(),
            out@ == joined(texts(parts@).take(i as int), sep@),
        decreases parts@.len() - i,
    {
        if i > 0 {
            out.append(sep);
        }
        out.append(parts[i].as_str());
        proof {
            let t = texts(parts@);
            assert(t.take(i + 1).drop_last() =~= t.take(i as int));
            assert(t.take(i + 1).last() == parts@[i as int]@);
            if i == 0 {
                assert(out@ =~= parts@[0]@);
            }
        }
        i += 1;
    }
    assert(texts(parts@).take(i as int) =~= texts(parts@));
    out
}

/// The decimal digit `d`.
pub open spec fn digit(d: nat) -> char {
    if d == 0 {
        '0'
    } else if d == 1 {
        '1'
    } else if d == 2 {
        '2'
    } else if d == 3 {
        '3'
    } else if d == 4 {
        '4'
    } else if d == 5 {
        '5'
    } else if d == 6 {
        '6'
    } else if d == 7 {
        '7'
    } else if d == 8 {
        '8'
    } else {
        '9'
    }
}

/// A number in decimal.
pub open spec fn decimal(n: nat) -> Seq<char>
    decreases n,
{
    if n < 10 {
        seq![digit(n)]
    } else {
        decimal(n / 10).push(digit(n % 10))
    }
}

fn digit_str(d: u64) -> (s: &'static str)
    requires
        d < 10,
    ensures
        s@ == seq![digit(d as nat)],
{
    proof {
        reveal_strlit("0");
        reveal_strlit("1");
        reveal_strlit("2");
        reveal_strlit("3");
        reveal_strlit("4");
        reveal_strlit("5");
        reveal_strlit("6");
        reveal_strlit("7");
        reveal_strlit("8");
        reveal_strlit("9");
    }
    match d {
        0 => "0",
        1 => "1",
        2 => "2",
        3 => "3",
        4 => "4",
        5 => "5",
        6 => "6",
        7 => "7",
        8 => "8",
        _ => "9",
    }
}

/// A number in decimal.
pub fn decimal_str(n: u64) -> (s: String)
    ensures
        s@ == decimal(n as nat),
    decreases n,
{
    let mut s = if n < 10 {
        String::new()
    } else {
        decimal_str(n / 10)
    };
    s.append(digit_str(n % 10));
    s
}

/// The dusk spelling of a type.
pub open spec fn type_text(t: TypeTree) -> Seq<char>
    decreases t,
{
    match t {
        TypeTree::Named(name, args) => {
            if args.len() == 0 {
                name
            } else {
                name + "<"@ + joined(type_texts(args), ", "@) + ">"@
            }
        },
        TypeTree::Ptr(inner) => "*"@ + type_text(*inner),
        TypeTree::RawPtr(inner) => "*raw "@ + type_text(*inner),
        TypeTree::Slice(inner) => element_text(*inner, type_text(*inner)) + "[]"@,
        TypeTree::Array(inner, n) => element_text(*inner, type_text(*inner)) + "["@ + decimal(n)
            + "]"@,
        TypeTree::Tuple(items) => "("@ + joined(type_texts(items), ", "@) + ")"@,
        TypeTree::Func(params, ret) => "("@ + joined(type_texts(params), ", "@) + ") -> "@
            + type_text(*ret),
        TypeTree::Unit => "void"@,
    }
}

/// The dusk spelling of each of several types.
pub open spec fn type_texts(types: Seq<TypeTree>) -> Seq<Seq<char>>
    decreases types,
{
    if types.len() == 0 {
        Seq::empty()
    } else {
        type_texts(types.drop_last()).push(type_text(types.last()))
    }
}

/// A type's spelling where a `[]` or `[N]` follows. A pointer or a function is
/// wrapped in parens so the suffix binds to all of it.
pub open spec fn element_text(t: TypeTree, spelling: Seq<char>) -> Seq<char> {
    if t is Ptr || t is RawPtr || t is Func {
        "("@ + spelling + ")"@
    } else {
        spelling
    }
}

/// Renders a type back to its dusk spelling.
pub fn type_str(t: &Type) -> (s: String)
    ensures
        s@ == type_text(t@),
    decreases t, 0int,
{
    let mut s = String::new();
    match t {
        Type::Named(name, args) => {
            proof {
                lemma_trees(args@);
            }
            s.append(name.as_str());
            if args.len() > 0 {
                let inner = type_list(args);
                s.append("<");
                s.append(inner.as_str());
                s.append(">");
            }
        },
        Type::Ptr(inner) => {
            let text = type_str(inner);
            s.append("*");
            s.append(text.as_str());
        },
        Type::RawPtr(inner) => {
            let text = type_str(inner);
            s.append("*raw ");
            s.append(text.as_str());
        },
        // Slices and arrays write their length suffix after the element type in
        // dusk. A pointer or function element is parenthesized so the suffix
        // binds to the whole element and the text reads back as the same type.
        Type::Slice(inner) => {
            let text = postfix_atom(inner);
            s.append(text.as_str());
            s.append("[]");
        },
        Type::Array(inner, n) => {
            let text = postfix_atom(inner);
            let len = decimal_str(*n);
            s.append(text.as_str());
            s.append("[");
            s.append(len.as_str());
            s.append("]");
        },
        Type::Tuple(items) => {
            let inner = type_list(items);
            s.append("(");
            s.append(inner.as_str());
            s.append(")");
        },
        Type::Func(params, ret) => {
            let inner = type_list(params);
            let text = type_str(ret);
            s.append("(");
            s.append(inner.as_str());
            s.append(") -> ");
            s.append(text.as_str());
        },
        Type::Unit => {
            s.append("void");
        },
    }
    assert(s@ =~= type_text(t@));
    s
}

/// Renders types separated by commas.
fn type_list(types: &Vec<Type>) -> (s: String)
    ensures
        s@ == joined(type_texts(trees(types@)), ", "@),
    decreases types, 0int,
{
    let mut parts: Vec<String> = Vec::new();
    let mut i: usize = 0;
    while i < types.len()
        invariant
            0 <= i <= types@.len(),
            texts(parts@) == type_texts(trees(types@.take(i as int))),
        decreases types@.len() - i,
    {
        let ghost before = parts@;
        parts.push(type_str(&types[i]));
        proof {
            let upto = types@.take(i + 1);
            assert(upto.drop_last() =~= types@.take(i as int));
            assert(upto.last() == types@[i as int]);
            assert(trees(upto).drop_last() =~= trees(types@.take(i as int)));
            assert(texts(parts@) =~= texts(before).push(type_text(types@[i as int]@)));
        }
        i += 1;
    }
    assert(types@.take(i as int) =~= types@);
    join(&parts, ", ")
}

/// Renders a type for use before a postfix `[]` or `[N]`, wrapping a pointer or
/// function type in parens so the suffix does not rebind to part of it.
fn postfix_atom(t: &Type) -> (s: String)
    ensures
        s@ == element_text(t@, type_text(t@)),
    decreases t, 1int,
{
    let text = type_str(t);
    match t {
        Type::Ptr(_) | Type::RawPtr(_) | Type::Func(_, _) => {
            let mut s = String::new();
            s.append("(");
            s.append(text.as_str());
            s.append(")");
            assert(s@ =~= "("@ + text@ + ")"@);
            s
        },
        _ => text,
    }
}

/// A generic list as it is written, or nothing when there are no parameters.
pub open spec fn generics_text(names: Seq<String>) -> Seq<char> {
    if names.len() == 0 {
        Seq::empty()
    } else {
        "<"@ + joined(texts(names), ", "@) + ">"@
    }
}

/// A parameter as it is written.
pub open spec fn param_text(p: Param) -> Seq<char> {
    (if p.using {
        "using "@
    } else {
        ""@
    }) + p.name@ + ": "@ + type_text(p.ty@)
}

/// A parameter list as it is written.
pub open spec fn params_text(ps: Seq<Param>) -> Seq<char> {
    joined(Seq::new(ps.len(), |i: int| param_text(ps[i])), ", "@)
}

/// A field as it is written.
pub open spec fn field_text(f: Field) -> Seq<char> {
    f.name@ + ": "@ + type_text(f.ty@)
}

/// A field list as it is written.
pub open spec fn fields_text(fs: Seq<Field>) -> Seq<char> {
    joined(Seq::new(fs.len(), |i: int| field_text(fs[i])), ", "@)
}

/// A function's signature.
pub open spec fn func_text(f: Func) -> Seq<char> {
    (if f.is_async {
        "async func"@
    } else {
        "func"@
    }) + " "@ + f.name@ + generics_text(f.generics@) + "("@ + params_text(f.params@) + ") -> "@
        + type_text(f.ret@)
}

/// A struct's signature.
pub open spec fn struct_text(s: Struct) -> Seq<char> {
    "struct "@ + s.name@ + generics_text(s.generics@) + " { "@ + fields_text(s.fields@) + " }"@
}

/// An enum variant. Variant payloads are named fields in dusk, so the names stay.
pub open spec fn variant_text(v: Variant) -> Seq<char> {
    if v.fields@.len() == 0 {
        v.name@
    } else {
        v.name@ + "("@ + fields_text(v.fields@) + ")"@
    }
}

/// An enum's signature.
pub open spec fn enum_text(e: Enum) -> Seq<char> {
    "enum "@ + e.name@ + generics_text(e.generics@) + " { "@ + joined(
        Seq::new(e.variants@.len(), |i: int| variant_text(e.variants@[i])),
        ", "@,
    ) + " }"@
}

/// A method an interface asks for.
pub open spec fn method_text(m: MethodSig) -> Seq<char> {
    m.name@ + "("@ + params_text(m.params@) + ") -> "@ + type_text(m.ret@)
}

/// An interface's signature.
pub open spec fn interface_text(i: Interface) -> Seq<char> {
    "interface "@ + i.name@ + generics_text(i.generics@) + " { "@ + joined(
        Seq::new(i.methods@.len(), |k: int| method_text(i.methods@[k])),
        "; "@,
    ) + " }"@
}

/// A foreign function's signature.
pub open spec fn foreign_text(f: ForeignFunc) -> Seq<char> {
    "func "@ + f.name@ + "("@ + params_text(f.params@) + ") -> "@ + type_text(f.ret@)
}

/// Renders a generic list as `<A, B>`, or nothing when there are no parameters.
pub fn generics(g: &Vec<String>) -> (s: String)
    ensures
        s@ == generics_text(g@),
{
    let mut s = String::new();
    if g.len() > 0 {
        let inner = join(g, ", ");
        s.append("<");
        s.append(inner.as_str());
        s.append(">");
    }
    assert(s@ =~= generics_text(g@));
    s
}

/// Renders a parameter list, keeping the `using` marker that binds the ambient
/// allocator.
pub fn params(ps: &Vec<Param>) -> (s: String)
    ensures
        s@ == params_text(ps@),
{
    let mut parts: Vec<String> = Vec::new();
    let mut i: usize = 0;
    while i < ps.len()
        invariant
            0 <= i <= ps@.len(),
            parts@.len() == i,
            forall|j: int| 0 <= j < i ==> (#[trigger] parts@[j])@ == param_text(ps@[j]),
        decreases ps@.len() - i,
    {
        parts.push(param_str(&ps[i]));
        i += 1;
    }
    assert(texts(parts@) =~= Seq::new(ps@.len(), |i: int| param_text(ps@[i])));
    join(&parts, ", ")
}

pub fn param_str(p: &Param) -> (s: String)
    ensures
        s@ == param_text(*p),
{
    let ty = type_str(&p.ty);
    let mut s = String::new();
    if p.using {
        s.append("using ");
    }
    s.append(p.name.as_str());
    s.append(": ");
    s.append(ty.as_str());
    proof {
        reveal_strlit("");
        assert(s@ =~= param_text(*p));
    }
    s
}

fn field_str(f: &Field) -> (s: String)
    ensures
        s@ == field_text(*f),
{
    let ty = type_str(&f.ty);
    let mut s = String::new();
    s.append(f.name.as_str());
    s.append(": ");
    s.append(ty.as_str());
    assert(s@ =~= field_text(*f));
    s
}

fn fields(fs: &Vec<Field>) -> (s: String)
    ensures
        s@ == fields_text(fs@),
{
    let mut parts: Vec<String> = Vec::new();
    let mut i: usize = 0;
    while i < fs.len()
        invariant
            0 <= i <= fs@.len(),
            parts@.len() == i,
            forall|j: int| 0 <= j < i ==> (#[trigger] parts@[j])@ == field_text(fs@[j]),
        decreases fs@.len() - i,
    {
        parts.push(field_str(&fs[i]));
        i += 1;
    }
    assert(texts(parts@) =~= Seq::new(fs@.len(), |i: int| field_text(fs@[i])));
    join(&parts, ", ")
}

pub fn func_sig(f: &Func) -> (s: String)
    ensures
        s@ == func_text(*f),
{
    let generics = generics(&f.generics);
    let params = params(&f.params);
    let ret = type_str(&f.ret);
    let mut s = String::new();
    if f.is_async {
        s.append("async func");
    } else {
        s.append("func");
    }
    s.append(" ");
    s.append(f.name.as_str());
    s.append(generics.as_str());
    s.append("(");
    s.append(params.as_str());
    s.append(") -> ");
    s.append(ret.as_str());
    assert(s@ =~= func_text(*f));
    s
}

pub fn struct_sig(s: &Struct) -> (out: String)
    ensures
        out@ == struct_text(*s),
{
    let generics = generics(&s.generics);
    let fields = fields(&s.fields);
    let mut out = String::new();
    out.append("struct ");
    out.append(s.name.as_str());
    out.append(generics.as_str());
    out.append(" { ");
    out.append(fields.as_str());
    out.append(" }");
    assert(out@ =~= struct_text(*s));
    out
}

fn variant_str(v: &Variant) -> (s: String)
    ensures
        s@ == variant_text(*v),
{
    let mut s = String::new();
    s.append(v.name.as_str());
    if v.fields.len() > 0 {
        let fields = fields(&v.fields);
        s.append("(");
        s.append(fields.as_str());
        s.append(")");
    }
    assert(s@ =~= variant_text(*v));
    s
}

pub fn enum_sig(e: &Enum) -> (s: String)
    ensures
        s@ == enum_text(*e),
{
    let mut parts: Vec<String> = Vec::new();
    let mut i: usize = 0;
    while i < e.variants.len()
        invariant
            0 <= i <= e.variants@.len(),
            parts@.len() == i,
            forall|j: int| 0 <= j < i ==> (#[trigger] parts@[j])@ == variant_text(e.variants@[j]),
        decreases e.variants@.len() - i,
    {
        parts.push(variant_str(&e.variants[i]));
        i += 1;
    }
    assert(texts(parts@) =~= Seq::new(e.variants@.len(), |i: int| variant_text(e.variants@[i])));
    let variants = join(&parts, ", ");
    let generics = generics(&e.generics);
    let mut s = String::new();
    s.append("enum ");
    s.append(e.name.as_str());
    s.append(generics.as_str());
    s.append(" { ");
    s.append(variants.as_str());
    s.append(" }");
    assert(s@ =~= enum_text(*e));
    s
}

pub fn method_sig(m: &MethodSig) -> (s: String)
    ensures
        s@ == method_text(*m),
{
    let params = params(&m.params);
    let ret = type_str(&m.ret);
    let mut s = String::new();
    s.append(m.name.as_str());
    s.append("(");
    s.append(params.as_str());
    s.append(") -> ");
    s.append(ret.as_str());
    assert(s@ =~= method_text(*m));
    s
}

pub fn interface_sig(i: &Interface) -> (s: String)
    ensures
        s@ == interface_text(*i),
{
    let mut parts: Vec<String> = Vec::new();
    let mut k: usize = 0;
    while k < i.methods.len()
        invariant
            0 <= k <= i.methods@.len(),
            parts@.len() == k,
            forall|j: int| 0 <= j < k ==> (#[trigger] parts@[j])@ == method_text(i.methods@[j]),
        decreases i.methods@.len() - k,
    {
        parts.push(method_sig(&i.methods[k]));
        k += 1;
    }
    assert(texts(parts@) =~= Seq::new(i.methods@.len(), |k: int| method_text(i.methods@[k])));
    let methods = join(&parts, "; ");
    let generics = generics(&i.generics);
    let mut s = String::new();
    s.append("interface ");
    s.append(i.name.as_str());
    s.append(generics.as_str());
    s.append(" { ");
    s.append(methods.as_str());
    s.append(" }");
    assert(s@ =~= interface_text(*i));
    s
}

pub fn foreign_sig(f: &ForeignFunc) -> (s: String)
    ensures
        s@ == foreign_text(*f),
{
    let params = params(&f.params);
    let ret = type_str(&f.ret);
    let mut s = String::new();
    s.append("func ");
    s.append(f.name.as_str());
    s.append("(");
    s.append(params.as_str());
    s.append(") -> ");
    s.append(ret.as_str());
    assert(s@ =~= foreign_text(*f));
    s
}

/// The keyword that declares each kind of symbol.
pub open spec fn kind_word(kind: SymbolKind) -> Seq<char> {
    match kind {
        SymbolKind::Function => "func"@,
        SymbolKind::Struct => "struct"@,
        SymbolKind::Enum => "enum"@,
        SymbolKind::Interface => "interface"@,
        SymbolKind::Namespace => "monad"@,
    }
}

/// A declaration's keyword and name.
pub open spec fn header_text(kind: SymbolKind, name: Seq<char>) -> Seq<char> {
    trimmed(kind_word(kind) + " "@ + name)
}

/// A bare header for a declaration the tree offered no detail for.
pub fn header(kind: SymbolKind, name: &str) -> (s: String)
    ensures
        s@ == header_text(kind, name@),
{
    let word = match kind {
        SymbolKind::Function => "func",
        SymbolKind::Struct => "struct",
        SymbolKind::Enum => "enum",
        SymbolKind::Interface => "interface",
        SymbolKind::Namespace => "monad",
    };
    let mut whole = String::new();
    whole.append(word);
    whole.append(" ");
    whole.append(name);
    assert(whole@ =~= kind_word(kind) + " "@ + name@);
    trim(whole.as_str()).to_owned()
}

} // verus!
