//! Navigation over a single document: the symbols it declares, hover text for a
//! name, and the definition a name points at.
//!
//! The syntax tree carries a span only for a function name and for the `impl`
//! and `foreign` keywords, not for a struct, enum, or interface name, nor for a
//! type or a parameter. So the declaration ranges come from pairing a
//! declaration keyword in the token stream with the name that follows it, while
//! the tree supplies the detail, the rendered signature, keyed by name.

use vstd::prelude::*;
#[allow(unused_imports)]
use vstd::std_specs::iter::IteratorSpec;
use vstd::string::*;

use crate::compiler::ast::{Item, Module};
#[allow(unused_imports)]
use crate::compiler::ast::Func;
use crate::compiler::builtins::is_primitive;
#[allow(unused_imports)]
use crate::compiler::builtins::primitive;
use crate::compiler::render::{
    enum_sig, foreign_sig, func_sig, header, interface_sig, struct_sig,
};
#[allow(unused_imports)]
use crate::compiler::render::{
    enum_text, foreign_text, func_text, header_text, interface_text, kind_word, struct_text,
};
use crate::compiler::token::{Keyword, Span, Token, TokenKind};
use crate::position::LineIndex;
#[allow(unused_imports)]
use crate::position::{
    fits, law_offset_round_trips, law_positions_keep_offset_order, offset_of, position_of,
};
use crate::protocol::{Hover, Position, Range, SymbolKind};
use crate::text::{len_utf8, same_str, str_len, tail_from};
#[allow(unused_imports)]
use crate::text::{byte_len, byte_offset, drop_space, is_space, lemma_byte_offset_grows};

verus! {

/// What the dusk front end makes of one buffer: its tokens and the tree they
/// parse to.
#[derive(Debug)]
pub struct Syntax {
    pub tokens: Vec<Token>,
    pub module: Module,
}

/// One declared name in a document: where its name sits, what it is, and a one
/// line rendering of its signature for hover.
#[derive(Debug, PartialEq)]
pub struct Symbol {
    pub name: String,
    pub kind: SymbolKind,
    pub detail: String,
    pub name_range: Range,
}

/// What a symbol says, apart from how its strings are stored.
#[verifier::ext_equal]
pub struct SymbolModel {
    pub name: Seq<char>,
    pub kind: SymbolKind,
    pub detail: Seq<char>,
    pub name_range: Range,
}

impl Symbol {
    pub open spec fn view(&self) -> SymbolModel {
        SymbolModel {
            name: self.name@,
            kind: self.kind,
            detail: self.detail@,
            name_range: self.name_range,
        }
    }

    /// Another symbol that says the same.
    pub fn duplicate(&self) -> (copy: Symbol)
        ensures
            copy@ == self@,
    {
        Symbol {
            name: self.name.clone(),
            kind: self.kind,
            detail: self.detail.clone(),
            name_range: self.name_range,
        }
    }
}

/// What each of several symbols says.
pub open spec fn symbol_models(symbols: Seq<Symbol>) -> Seq<SymbolModel> {
    Seq::new(symbols.len(), |i: int| symbols[i]@)
}

/// A name in a document and where it sits.
#[verifier::ext_equal]
pub struct Occurrence {
    pub name: Seq<char>,
    pub range: Range,
}

/// What each of several names and ranges says.
pub open spec fn occurrences(pairs: Seq<(String, Range)>) -> Seq<Occurrence> {
    Seq::new(pairs.len(), |i: int| Occurrence { name: pairs[i].0@, range: pairs[i].1 })
}

/// The protocol range of a span of a text.
pub open spec fn range_of(s: Seq<char>, span: Span) -> Range {
    Range { start: position_of(s, span.lo as int), end: position_of(s, span.hi as int) }
}

fn range_at(text: &str, index: &LineIndex, span: Span) -> (range: Range)
    requires
        index.maps(text@),
    ensures
        range == range_of(text@, span),
{
    Range::new(index.position(text, span.lo), index.position(text, span.hi))
}

/// The kind of symbol a keyword declares.
pub open spec fn symbol_kind(kw: Keyword) -> Option<SymbolKind> {
    match kw {
        Keyword::Func => Some(SymbolKind::Function),
        Keyword::Struct => Some(SymbolKind::Struct),
        Keyword::Enum => Some(SymbolKind::Enum),
        Keyword::Interface => Some(SymbolKind::Interface),
        Keyword::Monad => Some(SymbolKind::Namespace),
        Keyword::Impl => None,
        Keyword::Other => None,
    }
}

/// The kind of symbol the token right before token `i` declares.
pub open spec fn declared_kind(tokens: Seq<Token>, i: int) -> Option<SymbolKind> {
    if i > 0 {
        match tokens[i - 1].kind {
            TokenKind::Kw(kw) => symbol_kind(kw),
            _ => None,
        }
    } else {
        None
    }
}

/// A place that declares a name.
#[verifier::ext_equal]
pub struct Site {
    pub kind: SymbolKind,
    pub name: Seq<char>,
    pub range: Range,
}

/// The declaring places among the first `n` tokens: names right after a
/// declaration keyword.
pub open spec fn sites_of(s: Seq<char>, tokens: Seq<Token>, n: int) -> Seq<Site>
    decreases n,
{
    if n <= 0 {
        Seq::empty()
    } else {
        let before = sites_of(s, tokens, n - 1);
        match (tokens[n - 1].kind, declared_kind(tokens, n - 1)) {
            (TokenKind::Ident(name), Some(kind)) => before.push(
                Site { kind, name: name@, range: range_of(s, tokens[n - 1].span) },
            ),
            _ => before,
        }
    }
}

/// What each of several declaring places says.
pub open spec fn site_models(sites: Seq<(SymbolKind, String, Range)>) -> Seq<Site> {
    Seq::new(
        sites.len(),
        |i: int| Site { kind: sites[i].0, name: sites[i].1@, range: sites[i].2 },
    )
}

/// Pairs each declaration keyword with the name token that follows it, giving a
/// precise range for names the tree does not span.
pub fn decl_sites(tokens: &[Token], text: &str, index: &LineIndex) -> (out: Vec<
    (SymbolKind, String, Range),
>)
    requires
        index.maps(text@),
    ensures
        site_models(out@) == sites_of(text@, tokens@, tokens@.len() as int),
{
    let mut out: Vec<(SymbolKind, String, Range)> = Vec::new();
    let mut pending: Option<SymbolKind> = None;
    let mut i: usize = 0;
    while i < tokens.len()
        invariant
            index.maps(text@),
            0 <= i <= tokens@.len(),
            pending == declared_kind(tokens@, i as int),
            site_models(out@) == sites_of(text@, tokens@, i as int),
        decreases tokens@.len() - i,
    {
        let tok = &tokens[i];
        let ghost before = out@;
        match &tok.kind {
            TokenKind::Kw(kw) => {
                pending = match kw {
                    Keyword::Func => Some(SymbolKind::Function),
                    Keyword::Struct => Some(SymbolKind::Struct),
                    Keyword::Enum => Some(SymbolKind::Enum),
                    Keyword::Interface => Some(SymbolKind::Interface),
                    Keyword::Monad => Some(SymbolKind::Namespace),
                    _ => None,
                };
            },
            TokenKind::Ident(name) => {
                if let Some(kind) = pending {
                    let range = range_at(text, index, tok.span);
                    out.push((kind, name.clone(), range));
                    assert(site_models(out@) =~= site_models(before).push(
                        Site { kind, name: name@, range },
                    ));
                }
                pending = None;
            },
            _ => {
                pending = None;
            },
        }
        i += 1;
    }
    out
}

/// Where the segment after the last dot among the first `k` characters starts.
pub open spec fn after_dot(s: Seq<char>, k: int) -> int
    decreases k,
{
    if k <= 0 {
        0
    } else if s[k - 1] == '.' {
        k
    } else {
        after_dot(s, k - 1)
    }
}

/// The segment after the last dot, or the whole name when it has none.
pub open spec fn tail_text(name: Seq<char>) -> Seq<char> {
    name.skip(after_dot(name, name.len() as int))
}

/// The segment after the last dot, or the whole name when it has none.
pub fn tail(name: &str) -> (r: &str)
    ensures
        r@ == tail_text(name@),
{
    let ghost s = name@;
    let total: usize = str_len(name);
    let mut off: usize = 0;
    let mut start: usize = 0;
    let mut it = name.chars();
    let ghost mut k: int = 0;
    loop
        invariant_except_break
            it.remaining() == s.skip(k),
        invariant
            total == byte_len(s),
            0 <= k <= s.len(),
            off == byte_offset(s, k),
            0 <= after_dot(s, k) <= k,
            start == byte_offset(s, after_dot(s, k)),
        ensures
            k == s.len(),
        decreases s.len() - k,
    {
        match it.next() {
            Some(c) => {
                proof {
                    assert(c == s[k]);
                    lemma_byte_offset_grows(s, k + 1, s.len() as int);
                    assert(s.skip(k).drop_first() =~= s.skip(k + 1));
                    k = k + 1;
                }
                off += len_utf8(c);
                if c == '.' {
                    start = off;
                }
            },
            None => {
                break;
            },
        }
    }
    tail_from(name, start, Ghost(after_dot(s, k)))
}

/// A signature, and the kind and name of declaration it is found under.
#[derive(Debug)]
pub struct Detail {
    pub kind: SymbolKind,
    pub name: String,
    pub sig: String,
}

/// What a detail says.
#[verifier::ext_equal]
pub struct DetailModel {
    pub kind: SymbolKind,
    pub name: Seq<char>,
    pub sig: Seq<char>,
}

/// What each of several details says.
pub open spec fn detail_models(details: Seq<Detail>) -> Seq<DetailModel> {
    Seq::new(
        details.len(),
        |i: int|
            DetailModel {
                kind: details[i].kind,
                name: details[i].name@,
                sig: details[i].sig@,
            },
    )
}

/// A signature filed under its kind and its name's trailing segment.
pub open spec fn filed(kind: SymbolKind, name: Seq<char>, sig: Seq<char>) -> DetailModel {
    DetailModel { kind, name: tail_text(name), sig }
}

/// The signatures one item declares, in source order.
pub open spec fn item_details(item: Item) -> Seq<DetailModel> {
    match item {
        Item::Func(f) => seq![filed(SymbolKind::Function, f.name@, func_text(f))],
        Item::Struct(s) => seq![filed(SymbolKind::Struct, s.name@, struct_text(s))],
        Item::Enum(e) => seq![filed(SymbolKind::Enum, e.name@, enum_text(e))],
        Item::Interface(i) => seq![filed(SymbolKind::Interface, i.name@, interface_text(i))],
        Item::Impl(im) => Seq::new(
            im.methods@.len(),
            |k: int|
                filed(SymbolKind::Function, im.methods@[k].name@, func_text(im.methods@[k])),
        ),
        Item::Foreign(fo) => Seq::new(
            fo.funcs@.len(),
            |k: int|
                filed(SymbolKind::Function, fo.funcs@[k].name@, foreign_text(fo.funcs@[k])),
        ),
    }
}

/// The signatures of the monad blocks. A monad block declares a namespace name of
/// its own, so its `monad Name` site has a header to show.
pub open spec fn monad_details(monads: Seq<String>) -> Seq<DetailModel> {
    Seq::new(
        monads.len(),
        |k: int| filed(SymbolKind::Namespace, monads[k]@, "monad "@ + monads[k]@),
    )
}

/// The signatures of the first `n` items.
pub open spec fn items_details(items: Seq<Item>, n: int) -> Seq<DetailModel>
    decreases n,
{
    if n <= 0 {
        Seq::empty()
    } else {
        items_details(items, n - 1) + item_details(items[n - 1])
    }
}

/// The signatures a document declares: the headers of its monad blocks and the
/// signatures of its items, each in source order. No kind of declaration is found
/// in both, so those of one kind are in source order too.
pub open spec fn details_of(m: Module) -> Seq<DetailModel> {
    monad_details(m.monads@) + items_details(m.items@, m.items@.len() as int)
}

/// Queues a signature under its kind and its name's trailing segment, so a monad
/// method the parser renamed to `Monad.method` is keyed by `method`, matching the
/// bare name the token stream pairs the declaration with.
pub fn push_sig(details: &mut Vec<Detail>, kind: SymbolKind, name: &str, sig: String)
    ensures
        detail_models(final(details)@) == detail_models(old(details)@).push(
            filed(kind, name@, sig@),
        ),
{
    let ghost text = sig@;
    details.push(Detail { kind, name: tail(name).to_owned(), sig });
    assert(detail_models(details@) =~= detail_models(old(details)@).push(
        filed(kind, name@, text),
    ));
}

/// The signatures a document declares, those of each kind in source order. A name
/// declared more than once, a free function and a method for instance, keeps one
/// entry per declaration, so each declaration site draws its own signature.
pub fn details(m: &Module) -> (out: Vec<Detail>)
    ensures
        detail_models(out@) == details_of(*m),
{
    let mut out: Vec<Detail> = Vec::new();
    let mut i: usize = 0;
    while i < m.monads.len()
        invariant
            0 <= i <= m.monads@.len(),
            detail_models(out@) == monad_details(m.monads@).take(i as int),
        decreases m.monads@.len() - i,
    {
        let name = m.monads[i].as_str();
        let mut sig = String::new();
        sig.append("monad ");
        sig.append(name);
        assert(sig@ =~= "monad "@ + name@);
        push_sig(&mut out, SymbolKind::Namespace, name, sig);
        assert(monad_details(m.monads@).take(i + 1) =~= monad_details(m.monads@).take(
            i as int,
        ).push(monad_details(m.monads@)[i as int]));
        i += 1;
    }
    let ghost monads = monad_details(m.monads@);
    proof {
        assert(monads.take(i as int) =~= monads);
        assert(monads + items_details(m.items@, 0) =~= monads);
    }
    let mut k: usize = 0;
    while k < m.items.len()
        invariant
            0 <= k <= m.items@.len(),
            detail_models(out@) == monads + items_details(m.items@, k as int),
        decreases m.items@.len() - k,
    {
        let ghost before = out@;
        push_item(&mut out, &m.items[k]);
        assert(monads + items_details(m.items@, k + 1) =~= detail_models(before) + item_details(
            m.items@[k as int],
        ));
        k += 1;
    }
    out
}

/// Queues the signatures one item declares.
fn push_item(out: &mut Vec<Detail>, item: &Item)
    ensures
        detail_models(final(out)@) == detail_models(old(out)@) + item_details(*item),
{
    let ghost before = detail_models(out@);
    match item {
        Item::Func(f) => {
            push_sig(out, SymbolKind::Function, f.name.as_str(), func_sig(f));
        },
        Item::Struct(s) => {
            push_sig(out, SymbolKind::Struct, s.name.as_str(), struct_sig(s));
        },
        Item::Enum(e) => {
            push_sig(out, SymbolKind::Enum, e.name.as_str(), enum_sig(e));
        },
        Item::Interface(i) => {
            push_sig(out, SymbolKind::Interface, i.name.as_str(), interface_sig(i));
        },
        Item::Impl(im) => {
            let ghost all = item_details(*item);
            let mut k: usize = 0;
            while k < im.methods.len()
                invariant
                    all == item_details(Item::Impl(*im)),
                    0 <= k <= im.methods@.len(),
                    detail_models(out@) == before + all.take(k as int),
                decreases im.methods@.len() - k,
            {
                let method = &im.methods[k];
                push_sig(out, SymbolKind::Function, method.name.as_str(), func_sig(method));
                assert(before + all.take(k + 1) =~= (before + all.take(k as int)).push(
                    all[k as int],
                ));
                k += 1;
            }
            assert(all.take(k as int) =~= all);
        },
        Item::Foreign(fo) => {
            let ghost all = item_details(*item);
            let mut k: usize = 0;
            while k < fo.funcs.len()
                invariant
                    all == item_details(Item::Foreign(*fo)),
                    0 <= k <= fo.funcs@.len(),
                    detail_models(out@) == before + all.take(k as int),
                decreases fo.funcs@.len() - k,
            {
                let func = &fo.funcs[k];
                push_sig(out, SymbolKind::Function, func.name.as_str(), foreign_sig(func));
                assert(before + all.take(k + 1) =~= (before + all.take(k as int)).push(
                    all[k as int],
                ));
                k += 1;
            }
            assert(all.take(k as int) =~= all);
        },
    }
    assert(detail_models(out@) =~= before + item_details(*item));
}

/// The kind and name a signature is filed under and drawn by.
#[verifier::ext_equal]
pub struct Key {
    pub kind: SymbolKind,
    pub name: Seq<char>,
}

impl DetailModel {
    pub open spec fn key(self) -> Key {
        Key { kind: self.kind, name: self.name }
    }
}

impl Site {
    pub open spec fn key(self) -> Key {
        Key { kind: self.kind, name: self.name }
    }
}

/// The signatures filed under `key` among the first `n` details, in order.
pub open spec fn signatures(details: Seq<DetailModel>, n: int, key: Key) -> Seq<Seq<char>>
    decreases n,
{
    if n <= 0 {
        Seq::empty()
    } else if details[n - 1].key() == key {
        signatures(details, n - 1, key).push(details[n - 1].sig)
    } else {
        signatures(details, n - 1, key)
    }
}

/// How many of the first `n` places declare a name of a kind.
pub open spec fn drawn(sites: Seq<Site>, n: int, key: Key) -> nat
    decreases n,
{
    if n <= 0 {
        0
    } else {
        drawn(sites, n - 1, key) + if sites[n - 1].key() == key {
            1nat
        } else {
            0nat
        }
    }
}

/// The signature place `i` shows: each place that declares a name of a kind draws
/// the next signature filed under that kind and name, and shows a bare header once
/// they run out.
pub open spec fn detail_for(sites: Seq<Site>, details: Seq<DetailModel>, i: int) -> Seq<char> {
    let site = sites[i];
    let queue = signatures(details, details.len() as int, site.key());
    let taken = drawn(sites, i, site.key());
    if taken < queue.len() {
        queue[taken as int]
    } else {
        header_text(site.kind, site.name)
    }
}

/// The symbols of a document's declaring places.
pub open spec fn symbols_at(sites: Seq<Site>, details: Seq<DetailModel>) -> Seq<SymbolModel> {
    Seq::new(
        sites.len(),
        |i: int|
            SymbolModel {
                name: sites[i].name,
                kind: sites[i].kind,
                detail: detail_for(sites, details, i),
                name_range: sites[i].range,
            },
    )
}

/// The symbols a document declares.
pub open spec fn symbols_of(s: Seq<char>, syntax: Syntax) -> Seq<SymbolModel> {
    symbols_at(
        sites_of(s, syntax.tokens@, syntax.tokens@.len() as int),
        details_of(syntax.module),
    )
}

/// A detail is the signature at its own rank among those filed with it.
proof fn lemma_signature_at(details: Seq<DetailModel>, n: int, k: int)
    requires
        0 <= k < n <= details.len(),
    ensures
        ({
            let key = details[k].key();
            let rank = signatures(details, k, key).len() as int;
            let queue = signatures(details, n, key);
            rank < queue.len() && queue[rank] == details[k].sig
        }),
    decreases n,
{
    if k < n - 1 {
        lemma_signature_at(details, n - 1, k);
    }
}

/// The signature filed under a kind and name with `taken` others before it.
fn draw(details: &Vec<Detail>, kind: SymbolKind, name: &str, taken: usize) -> (sig: Option<String>)
    ensures
        ({
            let queue = signatures(
                detail_models(details@),
                details@.len() as int,
                Key { kind, name: name@ },
            );
            match sig {
                Some(text) => taken < queue.len() && text@ == queue[taken as int],
                None => taken >= queue.len(),
            }
        }),
{
    let ghost models = detail_models(details@);
    let ghost key = Key { kind, name: name@ };
    let mut seen: usize = 0;
    let mut k: usize = 0;
    while k < details.len()
        invariant
            models == detail_models(details@),
            key == (Key { kind, name: name@ }),
            0 <= k <= details@.len(),
            seen == signatures(models, k as int, key).len(),
            seen <= taken,
        decreases details@.len() - k,
    {
        if details[k].kind == kind && same_str(details[k].name.as_str(), name) {
            if seen == taken {
                proof {
                    lemma_signature_at(models, models.len() as int, k as int);
                }
                return Some(details[k].sig.clone());
            }
            seen += 1;
        }
        k += 1;
    }
    None
}

/// How many of the first `n` places declare a name of a kind.
fn count_drawn(
    sites: &Vec<(SymbolKind, String, Range)>,
    n: usize,
    kind: SymbolKind,
    name: &str,
) -> (count: usize)
    requires
        n <= sites@.len(),
    ensures
        count == drawn(site_models(sites@), n as int, (Key { kind, name: name@ })),
{
    let mut count: usize = 0;
    let mut i: usize = 0;
    while i < n
        invariant
            0 <= i <= n <= sites@.len(),
            count == drawn(site_models(sites@), i as int, (Key { kind, name: name@ })),
            count <= i,
        decreases n - i,
    {
        if sites[i].0 == kind && same_str(sites[i].1.as_str(), name) {
            count += 1;
        }
        i += 1;
    }
    count
}

/// The symbols a document declares, top level items and the methods inside impl
/// and foreign blocks, in source order.
pub fn document_symbols(text: &str, syntax: &Syntax) -> (out: Vec<Symbol>)
    requires
        fits(text@),
    ensures
        symbol_models(out@) == symbols_of(text@, *syntax),
{
    let index = LineIndex::new(text);
    let sites = decl_sites(syntax.tokens.as_slice(), text, &index);
    // Signatures are drawn per kind and name in source order, so a method and a free
    // function that share a name each keep their own, as do a function and a monad
    // block, and the outline, hover, and definition never show a signature from the
    // wrong declaration.
    let details = details(&syntax.module);
    let ghost want = symbols_of(text@, *syntax);
    let mut out: Vec<Symbol> = Vec::new();
    let mut i: usize = 0;
    while i < sites.len()
        invariant
            site_models(sites@) == sites_of(
                text@,
                syntax.tokens@,
                syntax.tokens@.len() as int,
            ),
            detail_models(details@) == details_of(syntax.module),
            want == symbols_of(text@, *syntax),
            want.len() == sites@.len(),
            0 <= i <= sites@.len(),
            out@.len() == i,
            forall|j: int| 0 <= j < i ==> (#[trigger] out@[j])@ == want[j],
        decreases sites@.len() - i,
    {
        let site = &sites[i];
        let taken: usize = count_drawn(&sites, i, site.0, site.1.as_str());
        let detail = match draw(&details, site.0, site.1.as_str(), taken) {
            Some(sig) => sig,
            None => header(site.0, site.1.as_str()),
        };
        let symbol = Symbol { name: site.1.clone(), kind: site.0, detail, name_range: site.2 };
        assert(site_models(sites@)[i as int].name == site.1@);
        assert(symbol@ == want[i as int]);
        out.push(symbol);
        i += 1;
    }
    assert(symbol_models(out@) =~= want);
    out
}

/// The first of the symbols from `i` on that has the name.
pub open spec fn first_named(symbols: Seq<SymbolModel>, name: Seq<char>, i: int) -> Option<
    SymbolModel,
>
    decreases symbols.len() - i,
{
    if i >= symbols.len() {
        None
    } else if symbols[i].name == name {
        Some(symbols[i])
    } else {
        first_named(symbols, name, i + 1)
    }
}

/// The symbol a name refers to within a document: the first one that has it.
fn find_symbol(symbols: &Vec<Symbol>, name: &str) -> (found: Option<usize>)
    ensures
        match found {
            Some(k) => k < symbols@.len() && first_named(symbol_models(symbols@), name@, 0)
                == Some(symbols@[k as int]@),
            None => first_named(symbol_models(symbols@), name@, 0) is None,
        },
{
    let ghost models = symbol_models(symbols@);
    let mut i: usize = 0;
    while i < symbols.len()
        invariant
            models == symbol_models(symbols@),
            0 <= i <= symbols@.len(),
            first_named(models, name@, 0) == first_named(models, name@, i as int),
        decreases symbols@.len() - i,
    {
        if same_str(symbols[i].name.as_str(), name) {
            return Some(i);
        }
        i += 1;
    }
    None
}

/// Whether token `i` is an identifier whose span covers `off`. The end is
/// inclusive so a cursor resting just past the last character still lands on it.
pub open spec fn covers(tok: Token, off: int) -> bool {
    tok.kind is Ident && tok.span.lo <= off <= tok.span.hi
}

/// The first identifier from token `i` on whose span covers `off`.
pub open spec fn ident_from(s: Seq<char>, tokens: Seq<Token>, off: int, i: int) -> Option<
    Occurrence,
>
    decreases tokens.len() - i,
{
    if i >= tokens.len() {
        None
    } else if covers(tokens[i], off) {
        Some(Occurrence { name: tokens[i].kind->Ident_0@, range: range_of(s, tokens[i].span) })
    } else {
        ident_from(s, tokens, off, i + 1)
    }
}

/// The identifier a position in a document is on.
pub open spec fn ident_under(s: Seq<char>, tokens: Seq<Token>, pos: Position) -> Option<
    Occurrence,
> {
    ident_from(s, tokens, offset_of(s, pos) as int, 0)
}

/// The identifier whose span covers `offset`, with its range. The end is
/// inclusive so a cursor resting just past the last character still lands on it.
pub fn ident_at(text: &str, offset: u32, index: &LineIndex, tokens: &[Token]) -> (found: Option<
    (String, Range),
>)
    requires
        index.maps(text@),
    ensures
        match found {
            Some(pair) => ident_from(text@, tokens@, offset as int, 0) == Some(
                Occurrence { name: pair.0@, range: pair.1 },
            ),
            None => ident_from(text@, tokens@, offset as int, 0) is None,
        },
{
    let mut i: usize = 0;
    while i < tokens.len()
        invariant
            index.maps(text@),
            0 <= i <= tokens@.len(),
            ident_from(text@, tokens@, offset as int, 0) == ident_from(
                text@,
                tokens@,
                offset as int,
                i as int,
            ),
        decreases tokens@.len() - i,
    {
        let tok = &tokens[i];
        if let TokenKind::Ident(name) = &tok.kind {
            if tok.span.lo <= offset && offset <= tok.span.hi {
                let range = range_at(text, index, tok.span);
                return Some((name.clone(), range));
            }
        }
        i += 1;
    }
    None
}

/// What hover shows for a name: that it is a builtin type, or the signature of
/// the symbol it refers to.
pub open spec fn hover_detail(s: Seq<char>, syntax: Syntax, name: Seq<char>) -> Option<Seq<char>> {
    if primitive(name) {
        Some(name + "\n\nbuiltin type"@)
    } else {
        match first_named(symbols_of(s, syntax), name, 0) {
            Some(symbol) => Some(symbol.detail),
            None => None,
        }
    }
}

/// A signature as a block of dusk in markdown.
pub open spec fn fenced(detail: Seq<char>) -> Seq<char> {
    "```dusk\n"@ + detail + "\n```"@
}

/// Hover text for the name under `pos`: a builtin type is named as such, and a
/// declared name shows its signature. An unknown name, a local, or a parameter
/// yields nothing, since those have no signature to show yet. Names are told apart
/// by their spelling alone, so a local or a parameter that shares a declared name
/// shows that declaration.
pub fn hover(text: &str, pos: Position, syntax: &Syntax) -> (shown: Option<Hover>)
    requires
        fits(text@),
    ensures
        match ident_under(text@, syntax.tokens@, pos) {
            None => shown is None,
            Some(ident) => match hover_detail(text@, *syntax, ident.name) {
                None => shown is None,
                Some(detail) => shown matches Some(h) && h.value@ == fenced(detail) && h.range
                    == ident.range,
            },
        },
{
    let index = LineIndex::new(text);
    let offset: u32 = index.offset(text, pos);
    let (name, range) = match ident_at(text, offset, &index, syntax.tokens.as_slice()) {
        Some(pair) => pair,
        None => {
            return None;
        },
    };
    let mut value = String::new();
    value.append("```dusk\n");
    if is_primitive(name.as_str()) {
        value.append(name.as_str());
        value.append("\n\nbuiltin type");
        value.append("\n```");
        assert(value@ =~= fenced(name@ + "\n\nbuiltin type"@));
    } else {
        let symbols = document_symbols(text, syntax);
        match find_symbol(&symbols, name.as_str()) {
            Some(k) => {
                value.append(symbols[k].detail.as_str());
                value.append("\n```");
                assert(value@ =~= fenced(symbols@[k as int].detail@));
            },
            None => {
                return None;
            },
        }
    }
    Some(Hover { value, range })
}

/// Where the name under a position is declared within its document.
pub open spec fn definition_of(s: Seq<char>, syntax: Syntax, pos: Position) -> Option<Range> {
    match ident_under(s, syntax.tokens@, pos) {
        None => None,
        Some(ident) => match first_named(symbols_of(s, syntax), ident.name, 0) {
            Some(symbol) => Some(symbol.name_range),
            None => None,
        },
    }
}

/// The range of the definition the name under `pos` refers to, within this
/// document. Cross file definitions wait for the workspace index.
pub fn definition(text: &str, pos: Position, syntax: &Syntax) -> (range: Option<Range>)
    requires
        fits(text@),
    ensures
        range == definition_of(text@, *syntax, pos),
{
    let index = LineIndex::new(text);
    let offset: u32 = index.offset(text, pos);
    match ident_at(text, offset, &index, syntax.tokens.as_slice()) {
        Some((name, _)) => {
            let symbols = document_symbols(text, syntax);
            match find_symbol(&symbols, name.as_str()) {
                Some(k) => Some(symbols[k].name_range),
                None => None,
            }
        },
        None => None,
    }
}

/// The name under `pos`.
pub fn name_at(text: &str, pos: Position, tokens: &[Token]) -> (name: Option<String>)
    requires
        fits(text@),
    ensures
        match ident_under(text@, tokens@, pos) {
            None => name is None,
            Some(ident) => name matches Some(n) && n@ == ident.name,
        },
{
    let index = LineIndex::new(text);
    let offset: u32 = index.offset(text, pos);
    match ident_at(text, offset, &index, tokens) {
        Some((name, _)) => Some(name),
        None => None,
    }
}

/// The identifiers among the first `n` tokens, in order.
pub open spec fn idents_of(s: Seq<char>, tokens: Seq<Token>, n: int) -> Seq<Occurrence>
    decreases n,
{
    if n <= 0 {
        Seq::empty()
    } else {
        match tokens[n - 1].kind {
            TokenKind::Ident(name) => idents_of(s, tokens, n - 1).push(
                Occurrence { name: name@, range: range_of(s, tokens[n - 1].span) },
            ),
            _ => idents_of(s, tokens, n - 1),
        }
    }
}

/// Every identifier a document mentions, with its range, in source order.
pub fn identifiers(text: &str, tokens: &[Token]) -> (out: Vec<(String, Range)>)
    requires
        fits(text@),
    ensures
        occurrences(out@) == idents_of(text@, tokens@, tokens@.len() as int),
{
    let index = LineIndex::new(text);
    let mut out: Vec<(String, Range)> = Vec::new();
    let mut i: usize = 0;
    while i < tokens.len()
        invariant
            index.maps(text@),
            0 <= i <= tokens@.len(),
            occurrences(out@) == idents_of(text@, tokens@, i as int),
        decreases tokens@.len() - i,
    {
        let tok = &tokens[i];
        let ghost before = out@;
        if let TokenKind::Ident(name) = &tok.kind {
            let range = range_at(text, &index, tok.span);
            out.push((name.clone(), range));
            assert(occurrences(out@) =~= occurrences(before).push(
                Occurrence { name: name@, range },
            ));
        }
        i += 1;
    }
    out
}

/// A declaring place is some token of the stream.
proof fn lemma_site_token(s: Seq<char>, tokens: Seq<Token>, n: int, i: int) -> (t: int)
    requires
        n <= tokens.len(),
        0 <= i < sites_of(s, tokens, n).len(),
    ensures
        0 <= t < n,
        tokens[t].kind is Ident,
        declared_kind(tokens, t) is Some,
        sites_of(s, tokens, n)[i].name == tokens[t].kind->Ident_0@,
        sites_of(s, tokens, n)[i].range == range_of(s, tokens[t].span),
    decreases n,
{
    if i < sites_of(s, tokens, n - 1).len() {
        lemma_site_token(s, tokens, n - 1, i)
    } else {
        n - 1
    }
}

/// Symbols come in source order: where the tokens are in order, no symbol starts
/// before one listed ahead of it.
pub proof fn law_symbols_come_in_source_order(s: Seq<char>, syntax: Syntax, i: int, j: int)
    requires
        fits(s),
        forall|a: int, b: int|
            0 <= a <= b < syntax.tokens@.len() ==> (#[trigger] syntax.tokens@[a]).span.lo
                <= (#[trigger] syntax.tokens@[b]).span.lo,
        0 <= i <= j < symbols_of(s, syntax).len(),
    ensures
        symbols_of(s, syntax)[i].name_range.start.at_or_before(
            symbols_of(s, syntax)[j].name_range.start,
        ),
{
    let tokens = syntax.tokens@;
    lemma_sites_in_order(s, tokens, tokens.len() as int, i, j);
}

proof fn lemma_sites_in_order(s: Seq<char>, tokens: Seq<Token>, n: int, i: int, j: int)
    requires
        fits(s),
        forall|a: int, b: int|
            0 <= a <= b < tokens.len() ==> (#[trigger] tokens[a]).span.lo <= (
            #[trigger] tokens[b]).span.lo,
        n <= tokens.len(),
        0 <= i <= j < sites_of(s, tokens, n).len(),
    ensures
        sites_of(s, tokens, n)[i].range.start.at_or_before(
            sites_of(s, tokens, n)[j].range.start,
        ),
    decreases n,
{
    if j < sites_of(s, tokens, n - 1).len() {
        lemma_sites_in_order(s, tokens, n - 1, i, j);
    } else {
        let t = lemma_site_token(s, tokens, n, i);
        law_positions_keep_offset_order(
            s,
            tokens[t].span.lo as int,
            tokens[n - 1].span.lo as int,
        );
    }
}

/// Details under other keys queue nothing.
proof fn lemma_no_signature_between(details: Seq<DetailModel>, from: int, to: int, key: Key)
    requires
        0 <= from <= to <= details.len(),
        forall|k: int| from <= k < to ==> (#[trigger] details[k]).key() != key,
    ensures
        signatures(details, to, key) == signatures(details, from, key),
    decreases to - from,
{
    if from < to {
        lemma_no_signature_between(details, from, to - 1, key);
    }
}

/// The last place before `i` that declares a name of a kind, if one does.
proof fn lemma_last_site(sites: Seq<Site>, i: int, key: Key) -> (p: int)
    requires
        0 <= i <= sites.len(),
    ensures
        -1 <= p < i,
        forall|q: int| p < q < i ==> (#[trigger] sites[q]).key() != key,
        p >= 0 ==> sites[p].key() == key && drawn(sites, i, key) == drawn(sites, p, key) + 1,
        p < 0 ==> drawn(sites, i, key) == 0,
    decreases i,
{
    if i <= 0 {
        -1
    } else if sites[i - 1].key() == key {
        i - 1
    } else {
        lemma_last_site(sites, i - 1, key)
    }
}

/// Which detail belongs to which declaring place: each place has one filed under
/// its own kind and name, places that share a kind and name have theirs in source
/// order, and no detail under a declared kind and name is left over.
pub open spec fn pairs_up(sites: Seq<Site>, details: Seq<DetailModel>, own: Seq<int>) -> bool {
    &&& own.len() == sites.len()
    &&& forall|i: int|
        0 <= i < sites.len() ==> 0 <= #[trigger] own[i] < details.len() && details[own[i]].key()
            == sites[i].key()
    &&& forall|i: int, j: int|
        0 <= i < j < sites.len() && sites[i].key() == sites[j].key() ==> #[trigger] own[i]
            < #[trigger] own[j]
    &&& forall|k: int, i: int|
        0 <= k < details.len() && 0 <= i < sites.len() && (#[trigger] details[k]).key() == (
        #[trigger] sites[i]).key() ==> own.contains(k)
}

/// Each declaration shows its own signature, however many declarations share its
/// name.
pub proof fn law_declarations_show_their_own_signature(
    sites: Seq<Site>,
    details: Seq<DetailModel>,
    own: Seq<int>,
    i: int,
)
    requires
        pairs_up(sites, details, own),
        0 <= i < sites.len(),
    ensures
        symbols_at(sites, details)[i].detail == details[own[i]].sig,
{
    lemma_own_rank(sites, details, own, i);
    lemma_signature_at(details, details.len() as int, own[i]);
}

proof fn lemma_own_rank(sites: Seq<Site>, details: Seq<DetailModel>, own: Seq<int>, i: int)
    requires
        pairs_up(sites, details, own),
        0 <= i < sites.len(),
    ensures
        signatures(details, own[i], sites[i].key()).len() == drawn(sites, i, sites[i].key()),
    decreases i,
{
    let key = sites[i].key();
    let p = lemma_last_site(sites, i, key);
    let from = if p >= 0 {
        own[p] + 1
    } else {
        0
    };
    assert forall|k: int| from <= k < own[i] implies (#[trigger] details[k]).key() != key by {
        if details[k].key() == key {
            assert(details[k].key() == sites[i].key());
            let q = own.index_of(k);
            assert(own[q] == k);
            assert(sites[q].key() == key);
            if q < p {
                assert(own[q] < own[p]);
            }
            if q > i {
                assert(own[i] < own[q]);
            }
        }
    }
    lemma_no_signature_between(details, from, own[i], key);
    if p >= 0 {
        lemma_own_rank(sites, details, own, p);
    }
}

/// A symbol never shows a signature filed under another name or another kind.
pub proof fn law_signatures_stay_under_their_name(
    sites: Seq<Site>,
    details: Seq<DetailModel>,
    i: int,
)
    requires
        0 <= i < sites.len(),
    ensures
        ({
            let symbol = symbols_at(sites, details)[i];
            symbol.detail == header_text(symbol.kind, symbol.name) || exists|k: int|
                0 <= k < details.len() && (#[trigger] details[k]).name == symbol.name
                    && details[k].kind == symbol.kind && details[k].sig == symbol.detail
        }),
{
    let key = sites[i].key();
    let taken = drawn(sites, i, key) as int;
    if taken < signatures(details, details.len() as int, key).len() {
        let k = lemma_signature_source(details, details.len() as int, key, taken);
        assert(details[k].name == key.name);
    }
}

/// Every queued signature is some detail's.
proof fn lemma_signature_source(details: Seq<DetailModel>, n: int, key: Key, r: int) -> (k: int)
    requires
        n <= details.len(),
        0 <= r < signatures(details, n, key).len(),
    ensures
        0 <= k < n,
        details[k].key() == key,
        details[k].sig == signatures(details, n, key)[r],
    decreases n,
{
    if r < signatures(details, n - 1, key).len() {
        lemma_signature_source(details, n - 1, key, r)
    } else {
        n - 1
    }
}

/// Whether a text begins with a word.
pub open spec fn begins(text: Seq<char>, word: Seq<char>) -> bool {
    text.len() >= word.len() && text.take(word.len() as int) == word
}

/// Whether a signature reads as one of a kind: it begins with the keyword that
/// declares the kind, behind `async` where a function is one.
pub open spec fn reads_as(kind: SymbolKind, sig: Seq<char>) -> bool {
    begins(sig, kind_word(kind)) || (kind is Function && begins(sig, "async func"@))
}

proof fn lemma_keywords()
    ensures
        "func"@ == seq!['f', 'u', 'n', 'c'],
        "struct"@ == seq!['s', 't', 'r', 'u', 'c', 't'],
        "enum"@ == seq!['e', 'n', 'u', 'm'],
        "interface"@ == seq!['i', 'n', 't', 'e', 'r', 'f', 'a', 'c', 'e'],
        "monad"@ == seq!['m', 'o', 'n', 'a', 'd'],
        "async func"@ == seq!['a', 's', 'y', 'n', 'c', ' ', 'f', 'u', 'n', 'c'],
{
    reveal_strlit("func");
    reveal_strlit("struct");
    reveal_strlit("enum");
    reveal_strlit("interface");
    reveal_strlit("monad");
    reveal_strlit("async func");
    assert("func"@ =~= seq!['f', 'u', 'n', 'c']);
    assert("struct"@ =~= seq!['s', 't', 'r', 'u', 'c', 't']);
    assert("enum"@ =~= seq!['e', 'n', 'u', 'm']);
    assert("interface"@ =~= seq!['i', 'n', 't', 'e', 'r', 'f', 'a', 'c', 'e']);
    assert("monad"@ =~= seq!['m', 'o', 'n', 'a', 'd']);
    assert("async func"@ =~= seq!['a', 's', 'y', 'n', 'c', ' ', 'f', 'u', 'n', 'c']);
}

/// A signature reads as one kind at most.
proof fn lemma_reads_as_one(a: SymbolKind, b: SymbolKind, sig: Seq<char>)
    requires
        reads_as(a, sig),
        reads_as(b, sig),
    ensures
        a == b,
{
    lemma_keywords();
    assert(begins(sig, kind_word(a)) ==> sig[0] == sig.take(kind_word(a).len() as int)[0]);
    assert(begins(sig, kind_word(b)) ==> sig[0] == sig.take(kind_word(b).len() as int)[0]);
    assert(begins(sig, "async func"@) ==> sig[0] == sig.take(10)[0]);
}

/// Trimming leaves a text that ends behind `k` at least that long, where the
/// character before `k` is no white space.
proof fn lemma_drop_space(s: Seq<char>, k: int, n: int)
    requires
        0 < k <= n <= s.len(),
        !is_space(s[k - 1]),
    ensures
        k <= drop_space(s, n) <= n,
    decreases n,
{
    if n > k && is_space(s[n - 1]) {
        lemma_drop_space(s, k, n - 1);
    }
}

proof fn lemma_header_reads(kind: SymbolKind, name: Seq<char>)
    ensures
        reads_as(kind, header_text(kind, name)),
{
    lemma_keywords();
    let word = kind_word(kind);
    let n = word.len() as int;
    let whole = word + " "@ + name;
    assert(whole[0] == word[0]);
    assert(whole[n - 1] == word[n - 1]);
    lemma_drop_space(whole, n, whole.len() as int);
    assert(header_text(kind, name).take(n) =~= word);
}

proof fn lemma_func_reads(f: Func)
    ensures
        reads_as(SymbolKind::Function, func_text(f)),
{
    let word = if f.is_async {
        "async func"@
    } else {
        "func"@
    };
    assert(func_text(f).take(word.len() as int) =~= word);
}

/// Every signature one item declares reads as its kind.
proof fn lemma_item_reads(item: Item)
    ensures
        forall|k: int|
            0 <= k < item_details(item).len() ==> (#[trigger] item_details(item)[k]).kind
                !is Namespace && reads_as(item_details(item)[k].kind, item_details(item)[k].sig),
{
    lemma_keywords();
    reveal_strlit("struct ");
    reveal_strlit("enum ");
    reveal_strlit("interface ");
    reveal_strlit("func ");
    match item {
        Item::Func(f) => {
            lemma_func_reads(f);
        },
        Item::Struct(s) => {
            assert(struct_text(s).take(6) =~= "struct"@);
        },
        Item::Enum(e) => {
            assert(enum_text(e).take(4) =~= "enum"@);
        },
        Item::Interface(i) => {
            assert(interface_text(i).take(9) =~= "interface"@);
        },
        Item::Impl(im) => {
            assert forall|k: int| 0 <= k < item_details(item).len() implies (
            #[trigger] item_details(item)[k]).kind !is Namespace && reads_as(
                item_details(item)[k].kind,
                item_details(item)[k].sig,
            ) by {
                lemma_func_reads(im.methods@[k]);
            }
        },
        Item::Foreign(fo) => {
            assert forall|k: int| 0 <= k < item_details(item).len() implies (
            #[trigger] item_details(item)[k]).kind !is Namespace && reads_as(
                item_details(item)[k].kind,
                item_details(item)[k].sig,
            ) by {
                assert(foreign_text(fo.funcs@[k]).take(4) =~= "func"@);
            }
        },
    }
}

proof fn lemma_items_read(items: Seq<Item>, n: int)
    requires
        n <= items.len(),
    ensures
        forall|k: int|
            0 <= k < items_details(items, n).len() ==> (#[trigger] items_details(items, n)[k]).kind
                !is Namespace && reads_as(
                items_details(items, n)[k].kind,
                items_details(items, n)[k].sig,
            ),
    decreases n,
{
    if n > 0 {
        let before = items_details(items, n - 1);
        let all = items_details(items, n);
        let mine = item_details(items[n - 1]);
        lemma_items_read(items, n - 1);
        lemma_item_reads(items[n - 1]);
        assert forall|k: int| 0 <= k < all.len() implies (#[trigger] all[k]).kind !is Namespace
            && reads_as(all[k].kind, all[k].sig) by {
            if k < before.len() {
                assert(all[k] == before[k]);
            } else {
                assert(all[k] == mine[k - before.len()]);
            }
        }
    }
}

/// A monad's symbol shows the header of a monad block of that name and nothing
/// else, and every other symbol shows the signature of an item of its kind and
/// name, or the bare header of its kind where the tree offered none.
pub proof fn law_symbols_draw_from_their_own_declarations(
    s: Seq<char>,
    syntax: Syntax,
    i: int,
)
    requires
        0 <= i < symbols_of(s, syntax).len(),
    ensures
        ({
            let symbol = symbols_of(s, syntax)[i];
            let own = if symbol.kind is Namespace {
                monad_details(syntax.module.monads@)
            } else {
                items_details(syntax.module.items@, syntax.module.items@.len() as int)
            };
            symbol.detail == header_text(symbol.kind, symbol.name) || own.contains(
                DetailModel { kind: symbol.kind, name: symbol.name, sig: symbol.detail },
            )
        }),
{
    let m = syntax.module;
    let sites = sites_of(s, syntax.tokens@, syntax.tokens@.len() as int);
    let symbol = symbols_of(s, syntax)[i];
    let monads = monad_details(m.monads@);
    let items = items_details(m.items@, m.items@.len() as int);
    law_signatures_stay_under_their_name(sites, details_of(m), i);
    lemma_items_read(m.items@, m.items@.len() as int);
    if symbol.detail != header_text(symbol.kind, symbol.name) {
        let details = details_of(m);
        let k = choose|k: int|
            0 <= k < details.len() && (#[trigger] details[k]).name == symbol.name
                && details[k].kind == symbol.kind && details[k].sig == symbol.detail;
        let drawn = DetailModel { kind: symbol.kind, name: symbol.name, sig: symbol.detail };
        if k < monads.len() {
            assert(monads[k] == drawn);
        } else {
            assert(items[k - monads.len()] == drawn);
        }
    }
}

/// What a symbol shows reads as its own kind and as no other: a function, struct,
/// enum, or interface never shows a monad's header, and a monad never shows
/// anything else.
pub proof fn law_symbols_read_as_their_kind(
    s: Seq<char>,
    syntax: Syntax,
    i: int,
    other: SymbolKind,
)
    requires
        0 <= i < symbols_of(s, syntax).len(),
    ensures
        reads_as(symbols_of(s, syntax)[i].kind, symbols_of(s, syntax)[i].detail),
        reads_as(other, symbols_of(s, syntax)[i].detail) ==> other == symbols_of(
            s,
            syntax,
        )[i].kind,
{
    let m = syntax.module;
    let symbol = symbols_of(s, syntax)[i];
    let monads = monad_details(m.monads@);
    let items = items_details(m.items@, m.items@.len() as int);
    law_symbols_draw_from_their_own_declarations(s, syntax, i);
    if symbol.detail == header_text(symbol.kind, symbol.name) {
        lemma_header_reads(symbol.kind, symbol.name);
    } else {
        let drawn = DetailModel { kind: symbol.kind, name: symbol.name, sig: symbol.detail };
        if symbol.kind is Namespace {
            let k = monads.index_of(drawn);
            assert(monads[k] == drawn);
            lemma_keywords();
            reveal_strlit("monad ");
            assert(symbol.detail.take(5) =~= "monad"@);
        } else {
            lemma_items_read(m.items@, m.items@.len() as int);
            let k = items.index_of(drawn);
            assert(items[k] == drawn);
        }
    }
    if reads_as(other, symbol.detail) {
        lemma_reads_as_one(other, symbol.kind, symbol.detail);
    }
}

/// A cursor on a name, from its first character to just past its last, lands on
/// that name when it touches no other.
pub proof fn law_cursor_on_a_name_finds_it(s: Seq<char>, tokens: Seq<Token>, i: int, k: int)
    requires
        fits(s),
        0 <= i < tokens.len(),
        0 <= k <= s.len(),
        covers(tokens[i], byte_offset(s, k) as int),
        forall|j: int|
            0 <= j < tokens.len() && j != i ==> !covers(
                #[trigger] tokens[j],
                byte_offset(s, k) as int,
            ),
    ensures
        ident_under(s, tokens, position_of(s, byte_offset(s, k) as int)) == Some(
            Occurrence { name: tokens[i].kind->Ident_0@, range: range_of(s, tokens[i].span) },
        ),
{
    law_offset_round_trips(s, byte_offset(s, k) as int);
    lemma_ident_from(s, tokens, byte_offset(s, k) as int, 0, i);
}

proof fn lemma_ident_from(s: Seq<char>, tokens: Seq<Token>, off: int, from: int, i: int)
    requires
        0 <= from <= i < tokens.len(),
        covers(tokens[i], off),
        forall|j: int| from <= j < i ==> !covers(#[trigger] tokens[j], off),
    ensures
        ident_from(s, tokens, off, from) == Some(
            Occurrence { name: tokens[i].kind->Ident_0@, range: range_of(s, tokens[i].span) },
        ),
    decreases i - from,
{
    if from < i {
        lemma_ident_from(s, tokens, off, from + 1, i);
    }
}

/// Hover and definition speak of the same declaration: under a name that is no
/// builtin type, one has an answer exactly when the other has, and both answers
/// are those of the first symbol with the name.
pub proof fn law_hover_and_definition_agree(s: Seq<char>, syntax: Syntax, pos: Position)
    requires
        ident_under(s, syntax.tokens@, pos) is Some,
        !primitive(ident_under(s, syntax.tokens@, pos)->0.name),
    ensures
        ({
            let name = ident_under(s, syntax.tokens@, pos)->0.name;
            let symbols = symbols_of(s, syntax);
            match definition_of(s, syntax, pos) {
                Some(range) => exists|k: int|
                    0 <= k < symbols.len() && (#[trigger] symbols[k]).name == name
                        && symbols[k].name_range == range && hover_detail(s, syntax, name) == Some(
                        symbols[k].detail,
                    ) && forall|j: int| 0 <= j < k ==> (#[trigger] symbols[j]).name != name,
                None => hover_detail(s, syntax, name) is None && forall|j: int|
                    0 <= j < symbols.len() ==> (#[trigger] symbols[j]).name != name,
            }
        }),
{
    let name = ident_under(s, syntax.tokens@, pos)->0.name;
    let symbols = symbols_of(s, syntax);
    let k = lemma_first_named(symbols, name, 0);
    if k < symbols.len() {
        assert(symbols[k].name == name);
    }
}

/// The first symbol with a name, or the end of the list.
proof fn lemma_first_named(symbols: Seq<SymbolModel>, name: Seq<char>, i: int) -> (k: int)
    requires
        0 <= i <= symbols.len(),
    ensures
        i <= k <= symbols.len(),
        forall|j: int| i <= j < k ==> (#[trigger] symbols[j]).name != name,
        k < symbols.len() ==> symbols[k].name == name && first_named(symbols, name, i) == Some(
            symbols[k],
        ),
        k == symbols.len() ==> first_named(symbols, name, i) is None,
    decreases symbols.len() - i,
{
    if i >= symbols.len() || symbols[i].name == name {
        i
    } else {
        lemma_first_named(symbols, name, i + 1)
    }
}

/// A declaration is an occurrence of its name: every symbol's name and range are
/// among the document's identifiers.
pub proof fn law_declarations_are_identifiers(s: Seq<char>, syntax: Syntax, i: int)
    requires
        0 <= i < symbols_of(s, syntax).len(),
    ensures
        idents_of(s, syntax.tokens@, syntax.tokens@.len() as int).contains(
            Occurrence {
                name: symbols_of(s, syntax)[i].name,
                range: symbols_of(s, syntax)[i].name_range,
            },
        ),
{
    let tokens = syntax.tokens@;
    let t = lemma_site_token(s, tokens, tokens.len() as int, i);
    lemma_ident_listed(s, tokens, tokens.len() as int, t);
}

proof fn lemma_ident_listed(s: Seq<char>, tokens: Seq<Token>, n: int, t: int)
    requires
        0 <= t < n <= tokens.len(),
        tokens[t].kind is Ident,
    ensures
        idents_of(s, tokens, n).contains(
            Occurrence { name: tokens[t].kind->Ident_0@, range: range_of(s, tokens[t].span) },
        ),
    decreases n,
{
    let it = Occurrence { name: tokens[t].kind->Ident_0@, range: range_of(s, tokens[t].span) };
    let all = idents_of(s, tokens, n);
    if t == n - 1 {
        assert(all.last() == it);
    } else {
        lemma_ident_listed(s, tokens, n - 1, t);
        let before = idents_of(s, tokens, n - 1);
        let j = before.index_of(it);
        assert(all[j] == it);
    }
}

/// A definition is the place of the first symbol that has the name under the
/// cursor, and there is one exactly where a symbol has it.
pub proof fn law_a_definition_is_the_first_declaration(
    s: Seq<char>,
    syntax: Syntax,
    pos: Position,
)
    requires
        ident_under(s, syntax.tokens@, pos) is Some,
    ensures
        ({
            let name = ident_under(s, syntax.tokens@, pos)->0.name;
            let symbols = symbols_of(s, syntax);
            match definition_of(s, syntax, pos) {
                Some(range) => exists|k: int|
                    0 <= k < symbols.len() && (#[trigger] symbols[k]).name == name
                        && symbols[k].name_range == range && forall|j: int|
                        0 <= j < k ==> (#[trigger] symbols[j]).name != name,
                None => forall|j: int|
                    0 <= j < symbols.len() ==> (#[trigger] symbols[j]).name != name,
            }
        }),
{
    let name = ident_under(s, syntax.tokens@, pos)->0.name;
    let symbols = symbols_of(s, syntax);
    let k = lemma_first_named(symbols, name, 0);
    if k < symbols.len() {
        assert(symbols[k].name == name);
    }
}

/// Every mention of a name leads to the same place: two positions on the same name
/// have the same definition, or neither has one.
pub proof fn law_every_mention_leads_to_the_definition(
    s: Seq<char>,
    syntax: Syntax,
    pos: Position,
    other: Position,
)
    requires
        ident_under(s, syntax.tokens@, pos) is Some,
        ident_under(s, syntax.tokens@, other) is Some,
        ident_under(s, syntax.tokens@, other)->0.name == ident_under(
            s,
            syntax.tokens@,
            pos,
        )->0.name,
    ensures
        definition_of(s, syntax, other) == definition_of(s, syntax, pos),
{
}

/// Whether a cursor put where identifier `t` starts lands on its name: the
/// identifier is there, and none ahead of it with another name reaches that far.
pub open spec fn stands_clear(s: Seq<char>, tokens: Seq<Token>, t: int) -> bool {
    let off = offset_of(s, position_of(s, tokens[t].span.lo as int)) as int;
    &&& covers(tokens[t], off)
    &&& forall|i: int|
        0 <= i < t && covers(#[trigger] tokens[i], off) ==> tokens[i].kind->Ident_0@
            == tokens[t].kind->Ident_0@
}

/// The first identifier from `from` on that covers an offset has the name of `t`,
/// where `t` covers it and no identifier of another name ahead of `t` does.
proof fn lemma_name_from(s: Seq<char>, tokens: Seq<Token>, off: int, from: int, t: int)
    requires
        0 <= from <= t < tokens.len(),
        covers(tokens[t], off),
        forall|i: int|
            from <= i < t && covers(#[trigger] tokens[i], off) ==> tokens[i].kind->Ident_0@
                == tokens[t].kind->Ident_0@,
    ensures
        ident_from(s, tokens, off, from) is Some,
        ident_from(s, tokens, off, from)->0.name == tokens[t].kind->Ident_0@,
    decreases t - from,
{
    if from < t && !covers(tokens[from], off) {
        lemma_name_from(s, tokens, off, from + 1, t);
    }
}

/// The definition of a definition is itself: from a name to its definition, and on
/// from there, is to stay, where a cursor put at the start of a declaration of the
/// name lands on the name.
pub proof fn law_a_definition_leads_to_itself(s: Seq<char>, syntax: Syntax, pos: Position)
    requires
        definition_of(s, syntax, pos) is Some,
        forall|t: int|
            0 <= t < syntax.tokens@.len() && (#[trigger] syntax.tokens@[t]).kind is Ident
                && syntax.tokens@[t].kind->Ident_0@ == ident_under(
                s,
                syntax.tokens@,
                pos,
            )->0.name && declared_kind(syntax.tokens@, t) is Some ==> stands_clear(
                s,
                syntax.tokens@,
                t,
            ),
    ensures
        definition_of(s, syntax, definition_of(s, syntax, pos)->0.start) == definition_of(
            s,
            syntax,
            pos,
        ),
{
    let tokens = syntax.tokens@;
    let name = ident_under(s, tokens, pos)->0.name;
    let symbols = symbols_of(s, syntax);
    let k = lemma_first_named(symbols, name, 0);
    let t = lemma_site_token(s, tokens, tokens.len() as int, k);
    assert(stands_clear(s, tokens, t));
    let start = position_of(s, tokens[t].span.lo as int);
    lemma_name_from(s, tokens, offset_of(s, start) as int, 0, t);
}

/// Whether a span takes in the characters from `a` up to `b`.
pub open spec fn spans_characters(s: Seq<char>, span: Span, a: int, b: int) -> bool {
    &&& 0 <= a < b <= s.len()
    &&& span.lo == byte_offset(s, a)
    &&& span.hi == byte_offset(s, b)
}

/// Whether a span takes in a whole word of a text: letters only, and no letter
/// right behind them.
pub open spec fn spans_word(s: Seq<char>, span: Span, letter: spec_fn(char) -> bool) -> bool {
    exists|a: int, b: int| #[trigger]
        spans_characters(s, span, a, b) && (forall|k: int| a <= k < b ==> letter(#[trigger] s[k]))
            && (b < s.len() ==> !letter(s[b]))
}

/// Whether tokens are as a lexer leaves them, whatever it counts as a letter: every
/// identifier is a whole word of the text, and they come in order.
pub open spec fn lexed(s: Seq<char>, tokens: Seq<Token>, letter: spec_fn(char) -> bool) -> bool {
    &&& forall|i: int|
        0 <= i < tokens.len() && (#[trigger] tokens[i]).kind is Ident ==> spans_word(
            s,
            tokens[i].span,
            letter,
        )
    &&& forall|i: int, j: int|
        0 <= i < j < tokens.len() && (#[trigger] tokens[i]).kind is Ident && (
        #[trigger] tokens[j]).kind is Ident ==> tokens[i].span.hi <= tokens[j].span.lo
}

/// Whole words in order do not touch.
proof fn lemma_words_apart(
    s: Seq<char>,
    tokens: Seq<Token>,
    letter: spec_fn(char) -> bool,
    i: int,
    j: int,
)
    requires
        lexed(s, tokens, letter),
        0 <= i < j < tokens.len(),
        tokens[i].kind is Ident,
        tokens[j].kind is Ident,
    ensures
        tokens[i].span.hi < tokens[j].span.lo,
{
    assert(spans_word(s, tokens[i].span, letter));
    assert(spans_word(s, tokens[j].span, letter));
    let (a, b) = choose|a: int, b: int| #[trigger]
        spans_characters(s, tokens[i].span, a, b) && (forall|k: int|
            a <= k < b ==> letter(#[trigger] s[k])) && (b < s.len() ==> !letter(s[b]));
    let (c, d) = choose|c: int, d: int| #[trigger]
        spans_characters(s, tokens[j].span, c, d) && (forall|k: int|
            c <= k < d ==> letter(#[trigger] s[k])) && (d < s.len() ==> !letter(s[d]));
    assert(letter(s[c]));
    if c < b {
        lemma_byte_offset_grows(s, c, b);
    }
    assert(b != c);
    lemma_byte_offset_grows(s, b, c);
}

/// In a lexed text a cursor anywhere on an identifier, from its first character to
/// just past its last, is on that identifier.
pub proof fn law_lexed_names_are_found(
    s: Seq<char>,
    tokens: Seq<Token>,
    letter: spec_fn(char) -> bool,
    i: int,
    pos: Position,
)
    requires
        lexed(s, tokens, letter),
        0 <= i < tokens.len(),
        covers(tokens[i], offset_of(s, pos) as int),
    ensures
        ident_under(s, tokens, pos) == Some(
            Occurrence { name: tokens[i].kind->Ident_0@, range: range_of(s, tokens[i].span) },
        ),
{
    let off = offset_of(s, pos) as int;
    assert forall|j: int| 0 <= j < i implies !covers(#[trigger] tokens[j], off) by {
        if tokens[j].kind is Ident {
            lemma_words_apart(s, tokens, letter, j, i);
        }
    }
    lemma_ident_from(s, tokens, off, 0, i);
}

/// In a lexed text a name leads to its definition from everywhere: the definition
/// is the place of the first symbol that has the name, it is its own definition,
/// and a cursor anywhere on any occurrence of the name leads there too.
pub proof fn law_lexed_names_have_one_definition(
    s: Seq<char>,
    syntax: Syntax,
    letter: spec_fn(char) -> bool,
    pos: Position,
)
    requires
        fits(s),
        lexed(s, syntax.tokens@, letter),
        definition_of(s, syntax, pos) is Some,
    ensures
        ({
            let tokens = syntax.tokens@;
            let range = definition_of(s, syntax, pos)->0;
            let name = ident_under(s, tokens, pos)->0.name;
            let symbols = symbols_of(s, syntax);
            &&& exists|k: int|
                0 <= k < symbols.len() && (#[trigger] symbols[k]).name == name
                    && symbols[k].name_range == range && forall|j: int|
                    0 <= j < k ==> (#[trigger] symbols[j]).name != name
            &&& definition_of(s, syntax, range.start) == Some(range)
            &&& forall|i: int, other: Position|
                0 <= i < tokens.len() && #[trigger] covers(
                    tokens[i],
                    offset_of(s, other) as int,
                ) && tokens[i].kind->Ident_0@ == name ==> definition_of(s, syntax, other) == Some(
                    range,
                )
        }),
{
    let tokens = syntax.tokens@;
    let range = definition_of(s, syntax, pos)->0;
    let name = ident_under(s, tokens, pos)->0.name;
    law_a_definition_is_the_first_declaration(s, syntax, pos);
    assert forall|t: int| 0 <= t < tokens.len() && (#[trigger] tokens[t]).kind is Ident implies
        stands_clear(s, tokens, t) by {
        let lo = tokens[t].span.lo as int;
        assert(spans_word(s, tokens[t].span, letter));
        let (a, b) = choose|a: int, b: int| #[trigger]
            spans_characters(s, tokens[t].span, a, b) && (forall|k: int|
                a <= k < b ==> letter(#[trigger] s[k])) && (b < s.len() ==> !letter(s[b]));
        assert(lo == byte_offset(s, a));
        law_offset_round_trips(s, lo);
        lemma_byte_offset_grows(s, a, b);
        assert forall|i: int| 0 <= i < t && covers(#[trigger] tokens[i], lo) implies
            tokens[i].kind->Ident_0@ == tokens[t].kind->Ident_0@ by {
            lemma_words_apart(s, tokens, letter, i, t);
        }
    }
    law_a_definition_leads_to_itself(s, syntax, pos);
    assert forall|i: int, other: Position|
        0 <= i < tokens.len() && #[trigger] covers(tokens[i], offset_of(s, other) as int)
            && tokens[i].kind->Ident_0@ == name implies definition_of(s, syntax, other) == Some(
        range,
    ) by {
        law_lexed_names_are_found(s, tokens, letter, i, other);
        law_every_mention_leads_to_the_definition(s, syntax, pos, other);
    }
}

/// Every name right behind a declaration keyword is a symbol: whatever stands
/// before the keyword, the name is listed with the keyword's kind and its own range.
pub proof fn law_every_declaration_is_a_symbol(s: Seq<char>, syntax: Syntax, t: int)
    requires
        0 < t < syntax.tokens@.len(),
        syntax.tokens@[t].kind is Ident,
    ensures
        ({
            let name = syntax.tokens@[t].kind->Ident_0@;
            let place = Range {
                start: position_of(s, syntax.tokens@[t].span.lo as int),
                end: position_of(s, syntax.tokens@[t].span.hi as int),
            };
            let listed = |kind: SymbolKind| exists|i: int|
                0 <= i < symbols_of(s, syntax).len() && (#[trigger] symbols_of(s, syntax)[i]).name
                    == name && symbols_of(s, syntax)[i].kind == kind && symbols_of(
                    s,
                    syntax,
                )[i].name_range == place;
            let before = syntax.tokens@[t - 1].kind;
            &&& before == TokenKind::Kw(Keyword::Func) ==> listed(SymbolKind::Function)
            &&& before == TokenKind::Kw(Keyword::Struct) ==> listed(SymbolKind::Struct)
            &&& before == TokenKind::Kw(Keyword::Enum) ==> listed(SymbolKind::Enum)
            &&& before == TokenKind::Kw(Keyword::Interface) ==> listed(SymbolKind::Interface)
            &&& before == TokenKind::Kw(Keyword::Monad) ==> listed(SymbolKind::Namespace)
        }),
{
    let tokens = syntax.tokens@;
    let sites = sites_of(s, tokens, tokens.len() as int);
    if declared_kind(tokens, t) is Some {
        let i = sites_of(s, tokens, t).len() as int;
        lemma_sites_kept(s, tokens, t + 1, tokens.len() as int);
        assert(sites_of(s, tokens, t + 1)[i] == sites[i]);
        assert(symbols_of(s, syntax)[i].name == sites[i].name);
    }
}

proof fn lemma_sites_kept(s: Seq<char>, tokens: Seq<Token>, m: int, n: int)
    requires
        0 <= m <= n <= tokens.len(),
    ensures
        sites_of(s, tokens, m).len() <= sites_of(s, tokens, n).len(),
        forall|i: int|
            0 <= i < sites_of(s, tokens, m).len() ==> #[trigger] sites_of(s, tokens, m)[i]
                == sites_of(s, tokens, n)[i],
    decreases n - m,
{
    if m < n {
        lemma_sites_kept(s, tokens, m, n - 1);
    }
}

/// The symbols of a document are its declarations, one for one and in order: the
/// names right behind a `func`, `struct`, `enum`, `interface` or `monad` keyword,
/// with the keyword's kind and the name's range, and nothing else.
pub proof fn law_symbols_are_the_declarations(s: Seq<char>, syntax: Syntax)
    ensures
        symbols_of(s, syntax).map_values(
            |x: SymbolModel| Site { kind: x.kind, name: x.name, range: x.name_range },
        ) == Seq::new(syntax.tokens@.len(), |t: int| t).filter_map(
            |t: int|
                if t > 0 && syntax.tokens@[t].kind is Ident {
                    let name = syntax.tokens@[t].kind->Ident_0@;
                    let range = Range {
                        start: position_of(s, syntax.tokens@[t].span.lo as int),
                        end: position_of(s, syntax.tokens@[t].span.hi as int),
                    };
                    match syntax.tokens@[t - 1].kind {
                        TokenKind::Kw(Keyword::Func) => Some(
                            Site { kind: SymbolKind::Function, name, range },
                        ),
                        TokenKind::Kw(Keyword::Struct) => Some(
                            Site { kind: SymbolKind::Struct, name, range },
                        ),
                        TokenKind::Kw(Keyword::Enum) => Some(
                            Site { kind: SymbolKind::Enum, name, range },
                        ),
                        TokenKind::Kw(Keyword::Interface) => Some(
                            Site { kind: SymbolKind::Interface, name, range },
                        ),
                        TokenKind::Kw(Keyword::Monad) => Some(
                            Site { kind: SymbolKind::Namespace, name, range },
                        ),
                        _ => None,
                    }
                } else {
                    None
                },
        ),
{
    let tokens = syntax.tokens@;
    let pick = |t: int|
        if t > 0 && tokens[t].kind is Ident {
            let name = tokens[t].kind->Ident_0@;
            let range = Range {
                start: position_of(s, tokens[t].span.lo as int),
                end: position_of(s, tokens[t].span.hi as int),
            };
            match tokens[t - 1].kind {
                TokenKind::Kw(Keyword::Func) => Some(
                    Site { kind: SymbolKind::Function, name, range },
                ),
                TokenKind::Kw(Keyword::Struct) => Some(
                    Site { kind: SymbolKind::Struct, name, range },
                ),
                TokenKind::Kw(Keyword::Enum) => Some(Site { kind: SymbolKind::Enum, name, range }),
                TokenKind::Kw(Keyword::Interface) => Some(
                    Site { kind: SymbolKind::Interface, name, range },
                ),
                TokenKind::Kw(Keyword::Monad) => Some(
                    Site { kind: SymbolKind::Namespace, name, range },
                ),
                _ => None,
            }
        } else {
            None
        };
    lemma_sites_picked(s, tokens, tokens.len() as int, pick);
    assert(symbols_of(s, syntax).map_values(
        |x: SymbolModel| Site { kind: x.kind, name: x.name, range: x.name_range },
    ) =~= sites_of(s, tokens, tokens.len() as int));
}

proof fn lemma_sites_picked(
    s: Seq<char>,
    tokens: Seq<Token>,
    n: int,
    pick: spec_fn(int) -> Option<Site>,
)
    requires
        0 <= n <= tokens.len(),
        forall|t: int|
            0 <= t < tokens.len() ==> #[trigger] pick(t) == match (
                tokens[t].kind,
                declared_kind(tokens, t),
            ) {
                (TokenKind::Ident(name), Some(kind)) => Some(
                    Site { kind, name: name@, range: range_of(s, tokens[t].span) },
                ),
                _ => None,
            },
    ensures
        sites_of(s, tokens, n) == Seq::new(n as nat, |t: int| t).filter_map(pick),
    decreases n,
{
    let upto = Seq::new(n as nat, |t: int| t);
    if n > 0 {
        lemma_sites_picked(s, tokens, n - 1, pick);
        assert(upto.drop_last() =~= Seq::new((n - 1) as nat, |t: int| t));
        assert(upto.last() == n - 1);
        assert(pick(n - 1) == pick(upto.last()));
        assert(sites_of(s, tokens, n) =~= upto.filter_map(pick));
    } else {
        assert(upto.filter_map(pick) =~= Seq::empty());
    }
}

/// The identifiers of a document are its name tokens, every one, once and in order,
/// each with its own range.
pub proof fn law_identifiers_are_the_name_tokens(s: Seq<char>, tokens: Seq<Token>)
    ensures
        idents_of(s, tokens, tokens.len() as int) == tokens.filter_map(
            |t: Token|
                match t.kind {
                    TokenKind::Ident(name) => Some(
                        Occurrence {
                            name: name@,
                            range: Range {
                                start: position_of(s, t.span.lo as int),
                                end: position_of(s, t.span.hi as int),
                            },
                        },
                    ),
                    _ => None,
                },
        ),
{
    let pick = |t: Token|
        match t.kind {
            TokenKind::Ident(name) => Some(
                Occurrence {
                    name: name@,
                    range: Range {
                        start: position_of(s, t.span.lo as int),
                        end: position_of(s, t.span.hi as int),
                    },
                },
            ),
            _ => None,
        };
    lemma_idents_picked(s, tokens, tokens.len() as int, pick);
    assert(tokens.take(tokens.len() as int) =~= tokens);
}

proof fn lemma_idents_picked(
    s: Seq<char>,
    tokens: Seq<Token>,
    n: int,
    pick: spec_fn(Token) -> Option<Occurrence>,
)
    requires
        0 <= n <= tokens.len(),
        forall|t: Token| #[trigger]
            pick(t) == match t.kind {
                TokenKind::Ident(name) => Some(
                    Occurrence { name: name@, range: range_of(s, t.span) },
                ),
                _ => None,
            },
    ensures
        idents_of(s, tokens, n) == tokens.take(n).filter_map(pick),
    decreases n,
{
    if n > 0 {
        lemma_idents_picked(s, tokens, n - 1, pick);
        assert(tokens.take(n).drop_last() =~= tokens.take(n - 1));
        assert(idents_of(s, tokens, n) =~= tokens.take(n).filter_map(pick));
    }
}

/// The name under a position is the first name token whose span takes in the
/// position's offset, both ends counted, and there is none only where no name
/// token's span does.
pub proof fn law_the_name_under_a_cursor(s: Seq<char>, tokens: Seq<Token>, pos: Position)
    ensures
        match ident_under(s, tokens, pos) {
            Some(found) => exists|i: int|
                #![trigger tokens[i]]
                0 <= i < tokens.len() && tokens[i].kind is Ident && tokens[i].span.lo <= offset_of(
                    s,
                    pos,
                ) <= tokens[i].span.hi && found.name == tokens[i].kind->Ident_0@ && found.range
                    == (Range {
                    start: position_of(s, tokens[i].span.lo as int),
                    end: position_of(s, tokens[i].span.hi as int),
                }) && forall|j: int|
                    #![trigger tokens[j]]
                    0 <= j < i && tokens[j].kind is Ident ==> !(tokens[j].span.lo <= offset_of(
                        s,
                        pos,
                    ) <= tokens[j].span.hi),
            None => forall|j: int|
                #![trigger tokens[j]]
                0 <= j < tokens.len() && tokens[j].kind is Ident ==> !(tokens[j].span.lo
                    <= offset_of(s, pos) <= tokens[j].span.hi),
        },
{
    let i = lemma_first_cover(s, tokens, offset_of(s, pos) as int, 0);
    if i < tokens.len() {
        assert(tokens[i].kind is Ident);
    }
}

/// The first name token from `from` on that takes in an offset, or the end.
proof fn lemma_first_cover(s: Seq<char>, tokens: Seq<Token>, off: int, from: int) -> (i: int)
    requires
        0 <= from <= tokens.len(),
    ensures
        from <= i <= tokens.len(),
        forall|j: int|
            from <= j < i && (#[trigger] tokens[j]).kind is Ident ==> !(tokens[j].span.lo <= off
                <= tokens[j].span.hi),
        i < tokens.len() ==> tokens[i].kind is Ident && tokens[i].span.lo <= off
            <= tokens[i].span.hi && ident_from(s, tokens, off, from) == Some(
            Occurrence { name: tokens[i].kind->Ident_0@, range: range_of(s, tokens[i].span) },
        ),
        i == tokens.len() ==> ident_from(s, tokens, off, from) is None,
    decreases tokens.len() - from,
{
    if from >= tokens.len() || covers(tokens[from], off) {
        from
    } else {
        lemma_first_cover(s, tokens, off, from + 1)
    }
}

/// The trailing segment of a name ends the name, holds no dot, and starts the name
/// or follows a dot.
pub proof fn law_the_trailing_segment_follows_the_last_dot(name: Seq<char>)
    ensures
        ({
            let tail = tail_text(name);
            let head = name.take(name.len() - tail.len());
            &&& tail.len() <= name.len()
            &&& name == head + tail
            &&& !tail.contains('.')
            &&& head.len() == 0 || head.last() == '.'
        }),
{
    lemma_after_dot(name, name.len() as int);
    let tail = tail_text(name);
    let at = after_dot(name, name.len() as int);
    assert(name =~= name.take(name.len() - tail.len()) + tail);
    if tail.contains('.') {
        let i = tail.index_of('.');
        assert(name[at + i] == '.');
    }
}

proof fn lemma_after_dot(s: Seq<char>, k: int)
    requires
        0 <= k <= s.len(),
    ensures
        0 <= after_dot(s, k) <= k,
        forall|i: int| after_dot(s, k) <= i < k ==> s[i] != '.',
        after_dot(s, k) > 0 ==> s[after_dot(s, k) - 1] == '.',
    decreases k,
{
    if k > 0 && s[k - 1] != '.' {
        lemma_after_dot(s, k - 1);
    }
}

/// What one item declares is filed whole: a function, struct, enum or interface as
/// one signature, an impl or foreign block as one per function in its order, each
/// under its own kind and its name's trailing segment.
pub proof fn law_an_item_files_each_of_its_signatures(item: Item, k: int)
    ensures
        ({
            let filed = item_details(item);
            match item {
                Item::Func(f) => filed.len() == 1 && filed[0].kind == SymbolKind::Function
                    && filed[0].name == tail_text(f.name@) && filed[0].sig == func_text(f),
                Item::Struct(x) => filed.len() == 1 && filed[0].kind == SymbolKind::Struct
                    && filed[0].name == tail_text(x.name@) && filed[0].sig == struct_text(x),
                Item::Enum(e) => filed.len() == 1 && filed[0].kind == SymbolKind::Enum
                    && filed[0].name == tail_text(e.name@) && filed[0].sig == enum_text(e),
                Item::Interface(i) => filed.len() == 1 && filed[0].kind == SymbolKind::Interface
                    && filed[0].name == tail_text(i.name@) && filed[0].sig == interface_text(i),
                Item::Impl(im) => filed.len() == im.methods@.len() && (0 <= k < filed.len()
                    ==> filed[k].kind == SymbolKind::Function && filed[k].name == tail_text(
                    im.methods@[k].name@,
                ) && filed[k].sig == func_text(im.methods@[k])),
                Item::Foreign(fo) => filed.len() == fo.funcs@.len() && (0 <= k < filed.len()
                    ==> filed[k].kind == SymbolKind::Function && filed[k].name == tail_text(
                    fo.funcs@[k].name@,
                ) && filed[k].sig == foreign_text(fo.funcs@[k])),
            }
        }),
{
}

/// What a document files is the header of every monad block and then the signatures
/// of every item, none left out, each in source order.
pub proof fn law_a_document_files_every_signature(m: Module)
    ensures
        details_of(m) == m.monads@.map_values(
            |name: String|
                DetailModel {
                    kind: SymbolKind::Namespace,
                    name: tail_text(name@),
                    sig: "monad "@ + name@,
                },
        ) + m.items@.map_values(|item: Item| item_details(item)).flatten(),
{
    let lists = m.items@.map_values(|item: Item| item_details(item));
    lemma_items_flat(m.items@, m.items@.len() as int);
    assert(lists.take(m.items@.len() as int) =~= lists);
    lists.lemma_flatten_and_flatten_alt_are_equivalent();
    assert(m.monads@.map_values(
        |name: String|
            DetailModel {
                kind: SymbolKind::Namespace,
                name: tail_text(name@),
                sig: "monad "@ + name@,
            },
    ) =~= monad_details(m.monads@));
}

proof fn lemma_items_flat(items: Seq<Item>, n: int)
    requires
        0 <= n <= items.len(),
    ensures
        items_details(items, n) == items.map_values(|item: Item| item_details(item)).take(
            n,
        ).flatten_alt(),
    decreases n,
{
    let lists = items.map_values(|item: Item| item_details(item));
    if n > 0 {
        lemma_items_flat(items, n - 1);
        assert(lists.take(n).drop_last() =~= lists.take(n - 1));
        assert(lists.take(n).last() == item_details(items[n - 1]));
    }
}

/// Declarations and signatures are matched by their count: where as many
/// declarations of the same kind and name come before a declaration as signatures of
/// that kind and name come before a signature, the declaration shows that signature;
/// where there are no more signatures than declarations before it, it shows its
/// keyword and name.
pub proof fn law_the_nth_declaration_shows_the_nth_signature(
    sites: Seq<Site>,
    details: Seq<DetailModel>,
    i: int,
    k: int,
)
    requires
        0 <= i < sites.len(),
        0 <= k <= details.len(),
        sites.take(i).filter_map(
            |x: Site|
                if x.kind == sites[i].kind && x.name == sites[i].name {
                    Some(())
                } else {
                    None
                },
        ).len() >= details.take(k).filter_map(
            |x: DetailModel|
                if x.kind == sites[i].kind && x.name == sites[i].name {
                    Some(())
                } else {
                    None
                },
        ).len(),
    ensures
        ({
            let earlier = sites.take(i).filter_map(
                |x: Site|
                    if x.kind == sites[i].kind && x.name == sites[i].name {
                        Some(())
                    } else {
                        None
                    },
            ).len();
            let ahead = details.take(k).filter_map(
                |x: DetailModel|
                    if x.kind == sites[i].kind && x.name == sites[i].name {
                        Some(())
                    } else {
                        None
                    },
            ).len();
            let symbol = symbols_at(sites, details)[i];
            &&& symbol.name == sites[i].name && symbol.kind == sites[i].kind && symbol.name_range
                == sites[i].range
            &&& k < details.len() && earlier == ahead && details[k].kind == sites[i].kind
                && details[k].name == sites[i].name ==> symbol.detail == details[k].sig
            &&& k == details.len() ==> symbol.detail == header_text(sites[i].kind, sites[i].name)
        }),
{
    let key = sites[i].key();
    let same_site = |x: Site|
        if x.kind == sites[i].kind && x.name == sites[i].name {
            Some(())
        } else {
            None
        };
    let same_detail = |x: DetailModel|
        if x.kind == sites[i].kind && x.name == sites[i].name {
            Some(())
        } else {
            None
        };
    lemma_drawn_counts(sites, i, key, same_site);
    lemma_signatures_count(details, k, key, same_detail);
    if k < details.len() && details[k].key() == key {
        lemma_signature_at(details, details.len() as int, k);
    }
}

proof fn lemma_drawn_counts(
    sites: Seq<Site>,
    n: int,
    key: Key,
    same: spec_fn(Site) -> Option<()>,
)
    requires
        0 <= n <= sites.len(),
        forall|x: Site| #[trigger]
            same(x) == if x.kind == key.kind && x.name == key.name {
                Some(())
            } else {
                None
            },
    ensures
        drawn(sites, n, key) == sites.take(n).filter_map(same).len(),
    decreases n,
{
    if n > 0 {
        lemma_drawn_counts(sites, n - 1, key, same);
        assert(sites.take(n).drop_last() =~= sites.take(n - 1));
    }
}

proof fn lemma_signatures_count(
    details: Seq<DetailModel>,
    n: int,
    key: Key,
    same: spec_fn(DetailModel) -> Option<()>,
)
    requires
        0 <= n <= details.len(),
        forall|x: DetailModel| #[trigger]
            same(x) == if x.kind == key.kind && x.name == key.name {
                Some(())
            } else {
                None
            },
    ensures
        signatures(details, n, key).len() == details.take(n).filter_map(same).len(),
    decreases n,
{
    if n > 0 {
        lemma_signatures_count(details, n - 1, key, same);
        assert(details.take(n).drop_last() =~= details.take(n - 1));
    }
}

/// Hover shows what it knows of the name in a block of dusk: between the fences
/// stands the name with a note that it is a builtin type, where it is one, else the
/// signature of the first symbol that has the name. A name that is neither has
/// nothing to show.
pub proof fn law_hover_shows_the_first_signature(
    s: Seq<char>,
    syntax: Syntax,
    name: Seq<char>,
    k: int,
)
    ensures
        primitive(name) ==> hover_detail(s, syntax, name) == Some(name + "\n\nbuiltin type"@),
        !primitive(name) && 0 <= k < symbols_of(s, syntax).len() && symbols_of(s, syntax)[k].name
            == name && (forall|j: int|
            0 <= j < k ==> (#[trigger] symbols_of(s, syntax)[j]).name != name) ==> hover_detail(
            s,
            syntax,
            name,
        ) == Some(symbols_of(s, syntax)[k].detail),
        !primitive(name) && (forall|j: int|
            0 <= j < symbols_of(s, syntax).len() ==> (#[trigger] symbols_of(s, syntax)[j]).name
                != name) ==> hover_detail(s, syntax, name) is None,
{
    let symbols = symbols_of(s, syntax);
    let f = lemma_first_named(symbols, name, 0);
    if 0 <= k < symbols.len() && symbols[k].name == name && f != k {
        if f < k {
            assert(symbols[f].name == name);
        } else {
            assert(symbols[k].name != name);
        }
    }
    if f < symbols.len() {
        assert(symbols[f].name == name);
    }
}

/// The fences around a signature leave it whole: it stands behind three backquotes,
/// `dusk` and a line break, and a line break and three backquotes follow.
pub proof fn law_fences_leave_the_signature_whole(detail: Seq<char>)
    ensures
        fenced(detail).len() == detail.len() + 12,
        fenced(detail).take(8) == "```dusk\n"@,
        fenced(detail).subrange(8, 8 + detail.len() as int) == detail,
        fenced(detail).skip(8 + detail.len() as int) == "\n```"@,
{
    reveal_strlit("```dusk\n");
    reveal_strlit("\n```");
    assert(fenced(detail).take(8) =~= "```dusk\n"@);
    assert(fenced(detail).subrange(8, 8 + detail.len() as int) =~= detail);
    assert(fenced(detail).skip(8 + detail.len() as int) =~= "\n```"@);
}

/// What a document's symbols show is settled by the symbols' own kinds and names and
/// by what the document files: matched to each other, they give the symbols back.
pub proof fn law_symbols_match_what_the_document_files(s: Seq<char>, syntax: Syntax)
    ensures
        symbols_of(s, syntax) == symbols_at(
            symbols_of(s, syntax).map_values(
                |x: SymbolModel| Site { kind: x.kind, name: x.name, range: x.name_range },
            ),
            details_of(syntax.module),
        ),
{
    let sites = sites_of(s, syntax.tokens@, syntax.tokens@.len() as int);
    assert(symbols_of(s, syntax).map_values(
        |x: SymbolModel| Site { kind: x.kind, name: x.name, range: x.name_range },
    ) =~= sites);
}

/// What each of several symbols, names or filed signatures says is all it holds, one
/// for one.
pub proof fn law_symbols_and_names_say_all_they_hold(
    symbols: Seq<Symbol>,
    names: Seq<(String, Range)>,
    sites: Seq<(SymbolKind, String, Range)>,
    details: Seq<Detail>,
)
    ensures
        symbol_models(symbols) == symbols.map_values(
            |x: Symbol|
                SymbolModel {
                    name: x.name@,
                    kind: x.kind,
                    detail: x.detail@,
                    name_range: x.name_range,
                },
        ),
        occurrences(names) == names.map_values(
            |x: (String, Range)| Occurrence { name: x.0@, range: x.1 },
        ),
        site_models(sites) == sites.map_values(
            |x: (SymbolKind, String, Range)| Site { kind: x.0, name: x.1@, range: x.2 },
        ),
        detail_models(details) == details.map_values(
            |x: Detail| DetailModel { kind: x.kind, name: x.name@, sig: x.sig@ },
        ),
{
    assert(symbol_models(symbols) =~= symbols.map_values(
        |x: Symbol|
            SymbolModel {
                name: x.name@,
                kind: x.kind,
                detail: x.detail@,
                name_range: x.name_range,
            },
    ));
    assert(occurrences(names) =~= names.map_values(
        |x: (String, Range)| Occurrence { name: x.0@, range: x.1 },
    ));
    assert(site_models(sites) =~= sites.map_values(
        |x: (SymbolKind, String, Range)| Site { kind: x.0, name: x.1@, range: x.2 },
    ));
    assert(detail_models(details) =~= details.map_values(
        |x: Detail| DetailModel { kind: x.kind, name: x.name@, sig: x.sig@ },
    ));
}

/// A name under the cursor has a definition exactly where a symbol has the name, and
/// where no name is under the cursor there is none.
pub proof fn law_only_declared_names_have_a_definition(
    s: Seq<char>,
    syntax: Syntax,
    pos: Position,
)
    ensures
        definition_of(s, syntax, pos) is Some <==> ident_under(s, syntax.tokens@, pos) is Some
            && exists|k: int|
            0 <= k < symbols_of(s, syntax).len() && (#[trigger] symbols_of(s, syntax)[k]).name
                == ident_under(s, syntax.tokens@, pos)->0.name,
{
    if ident_under(s, syntax.tokens@, pos) is Some {
        law_a_definition_is_the_first_declaration(s, syntax, pos);
    }
}

} // verus!
