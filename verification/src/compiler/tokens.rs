//! Semantic tokens for highlighting.
//!
//! The dusk lexer already hands back every token with a span, so highlighting
//! rides the token stream rather than the tree. Roles the stream cannot settle
//! on its own, a name after `func` or a type after `->`, come from a small
//! amount of look around, not from the parser, since the syntax tree carries no
//! span for a type or a parameter name.
//!
//! Comments are the one thing the lexer drops, folding them into trivia, so they
//! are recovered by scanning the gaps between token spans for `//`.

use vstd::prelude::*;
#[allow(unused_imports)]
use vstd::utf8::encode_utf8;

use crate::compiler::builtins::is_primitive;
#[allow(unused_imports)]
use crate::compiler::builtins::primitive;
use crate::compiler::sort::{sort_by_start, Item};
#[allow(unused_imports)]
use crate::compiler::sort::{
    law_sorting_keeps_every_item, law_stable_order_is_unique, sorted, stably_sorted,
};
use crate::compiler::token::{Keyword, Token, TokenKind};
use crate::position::LineIndex;
#[allow(unused_imports)]
use crate::position::{fits, position_of};
use crate::protocol::{SemanticToken, SemanticTokensLegend};
#[allow(unused_imports)]
use crate::text::{byte_len, lemma_encode_len};

verus! {

/// The highlighting roles vesper emits. The order here is the legend order, so
/// [`type_index`] and [`legend`] must stay in step.
#[derive(Clone, Copy, Debug, PartialEq, Eq, Structural)]
pub enum Sem {
    Keyword,
    Function,
    Type,
    Struct,
    Enum,
    Interface,
    Number,
    String,
    Comment,
    Variable,
    Macro,
}

/// The number each role takes in the legend.
pub open spec fn role_number(sem: Sem) -> u32 {
    match sem {
        Sem::Keyword => 0,
        Sem::Function => 1,
        Sem::Type => 2,
        Sem::Struct => 3,
        Sem::Enum => 4,
        Sem::Interface => 5,
        Sem::Number => 6,
        Sem::String => 7,
        Sem::Comment => 8,
        Sem::Variable => 9,
        Sem::Macro => 10,
    }
}

/// The protocol's name for each role.
pub open spec fn role_name(sem: Sem) -> Seq<char> {
    match sem {
        Sem::Keyword => "keyword"@,
        Sem::Function => "function"@,
        Sem::Type => "type"@,
        Sem::Struct => "struct"@,
        Sem::Enum => "enum"@,
        Sem::Interface => "interface"@,
        Sem::Number => "number"@,
        Sem::String => "string"@,
        Sem::Comment => "comment"@,
        Sem::Variable => "variable"@,
        Sem::Macro => "macro"@,
    }
}

/// The index a role takes in the legend the client was handed.
pub fn type_index(sem: Sem) -> (index: u32)
    ensures
        index == role_number(sem),
{
    match sem {
        Sem::Keyword => 0,
        Sem::Function => 1,
        Sem::Type => 2,
        Sem::Struct => 3,
        Sem::Enum => 4,
        Sem::Interface => 5,
        Sem::Number => 6,
        Sem::String => 7,
        Sem::Comment => 8,
        Sem::Variable => 9,
        Sem::Macro => 10,
    }
}

/// The `declaration` modifier bit, matching the legend.
pub const DECL: u32 = 1;

/// The `defaultLibrary` modifier bit, matching the legend.
pub const DEFLIB: u32 = 2;

/// Whether a legend names every role under its number, and both modifiers.
pub open spec fn is_legend(legend: SemanticTokensLegend) -> bool {
    &&& legend.token_types@.len() == 11
    &&& forall|sem: Sem|
        #![trigger role_number(sem)]
        #![trigger role_name(sem)]
        role_number(sem) < 11 && legend.token_types@[role_number(sem) as int]@ == role_name(sem)
    &&& legend.token_modifiers@.len() == 2
    &&& legend.token_modifiers@[0]@ == "declaration"@
    &&& legend.token_modifiers@[1]@ == "defaultLibrary"@
}

/// The legend the server advertises, naming every role and modifier it will use.
/// The token type order matches [`type_index`].
pub fn legend() -> (legend: SemanticTokensLegend)
    ensures
        is_legend(legend),
{
    let mut token_types: Vec<&'static str> = Vec::new();
    token_types.push("keyword");
    token_types.push("function");
    token_types.push("type");
    token_types.push("struct");
    token_types.push("enum");
    token_types.push("interface");
    token_types.push("number");
    token_types.push("string");
    token_types.push("comment");
    token_types.push("variable");
    token_types.push("macro");
    let mut token_modifiers: Vec<&'static str> = Vec::new();
    token_modifiers.push("declaration");
    token_modifiers.push("defaultLibrary");
    SemanticTokensLegend { token_types, token_modifiers }
}

/// One classified span, in byte offsets, before it is converted to the protocol
/// line, column, and length shape.
#[derive(Clone, Copy, Debug, PartialEq, Eq, Structural)]
pub struct Raw {
    pub lo: u32,
    pub hi: u32,
    pub sem: Sem,
    pub mods: u32,
}

/// The role a declaration keyword gives the name after it. A monad block names a
/// type like construct after the keyword.
pub open spec fn declares(kw: Keyword) -> Option<Sem> {
    match kw {
        Keyword::Func => Some(Sem::Function),
        Keyword::Struct => Some(Sem::Struct),
        Keyword::Enum => Some(Sem::Enum),
        Keyword::Interface => Some(Sem::Interface),
        Keyword::Monad => Some(Sem::Type),
        Keyword::Impl => None,
        Keyword::Other => None,
    }
}

/// Whether token `i` comes right after an `@`.
pub open spec fn after_at(tokens: Seq<Token>, i: int) -> bool {
    i > 0 && tokens[i - 1].kind is At
}

/// The role a declaration keyword right before token `i` gives it. Only `@` may
/// come between the two.
pub open spec fn declared_as(tokens: Seq<Token>, i: int) -> Option<Sem>
    decreases i,
{
    if i <= 0 {
        None
    } else {
        match tokens[i - 1].kind {
            TokenKind::Kw(kw) => declares(kw),
            TokenKind::At => declared_as(tokens, i - 1),
            _ => None,
        }
    }
}

/// Opened minus closed parens and square brackets among the first `i` tokens.
pub open spec fn paren_depth(tokens: Seq<Token>, i: int) -> int
    decreases i,
{
    if i <= 0 {
        0
    } else {
        paren_depth(tokens, i - 1) + match tokens[i - 1].kind {
            TokenKind::LParen | TokenKind::LBracket => 1int,
            TokenKind::RParen | TokenKind::RBracket => -1int,
            _ => 0int,
        }
    }
}

/// A type position that stands open: the paren depth it opened at, and how many
/// generic argument lists are open inside it.
pub struct TypeScope {
    pub base: int,
    pub angle: int,
}

/// The type position that is open once the first `i` tokens are read.
///
/// A `->` or an `impl` opens one. It ends at a line break, at the `{` that opens
/// a body, at a bracket that closes outside it, and at a comma that is neither
/// inside brackets nor inside a generic argument list of its own.
pub open spec fn type_scope(tokens: Seq<Token>, i: int) -> Option<TypeScope>
    decreases i,
{
    if i <= 0 {
        None
    } else {
        let tok = tokens[i - 1];
        let depth = paren_depth(tokens, i);
        if tok.kind is Arrow || tok.kind == TokenKind::Kw(Keyword::Impl) {
            Some(TypeScope { base: depth, angle: 0 })
        } else if tok.nl_before || tok.kind is LBrace {
            None
        } else {
            match type_scope(tokens, i - 1) {
                None => None,
                Some(scope) => match tok.kind {
                    TokenKind::RParen | TokenKind::RBracket => {
                        if depth < scope.base {
                            None
                        } else {
                            Some(scope)
                        }
                    },
                    TokenKind::Comma => {
                        if depth == scope.base && scope.angle == 0 {
                            None
                        } else {
                            Some(scope)
                        }
                    },
                    TokenKind::Lt => Some(TypeScope { base: scope.base, angle: scope.angle + 1 }),
                    TokenKind::Gt => Some(
                        TypeScope {
                            base: scope.base,
                            angle: if scope.angle > 0 {
                                scope.angle - 1
                            } else {
                                scope.angle
                            },
                        },
                    ),
                    TokenKind::Shr => Some(
                        TypeScope {
                            base: scope.base,
                            angle: if scope.angle > 2 {
                                scope.angle - 2
                            } else {
                                0
                            },
                        },
                    ),
                    _ => Some(scope),
                },
            }
        }
    }
}

/// Whether a name at token `i` stands in a type position.
pub open spec fn in_type(tokens: Seq<Token>, i: int) -> bool {
    !tokens[i].nl_before && type_scope(tokens, i) is Some
}

/// Whether token `i` is immediately followed by `(`, the shape of a call or a
/// declaration's parameter list.
pub open spec fn calls(tokens: Seq<Token>, i: int) -> bool {
    i + 1 < tokens.len() && tokens[i + 1].kind is LParen
}

/// The role and modifiers a name takes, by what stands around it.
pub open spec fn name_role(tokens: Seq<Token>, i: int, name: Seq<char>) -> (Sem, u32) {
    if after_at(tokens, i) {
        (Sem::Macro, 0)
    } else if declared_as(tokens, i) is Some {
        (declared_as(tokens, i)->0, DECL)
    } else if primitive(name) {
        (Sem::Type, DEFLIB)
    } else if in_type(tokens, i) {
        (Sem::Type, 0)
    } else if calls(tokens, i) {
        (Sem::Function, 0)
    } else {
        (Sem::Variable, 0)
    }
}

/// The role and modifiers of token `i`. Punctuation has none.
pub open spec fn token_role(tokens: Seq<Token>, i: int) -> Option<(Sem, u32)> {
    match tokens[i].kind {
        TokenKind::Kw(_) | TokenKind::Bool => Some((Sem::Keyword, 0)),
        TokenKind::Int | TokenKind::Float => Some((Sem::Number, 0)),
        TokenKind::Str | TokenKind::Char => Some((Sem::String, 0)),
        TokenKind::Ident(name) => Some(name_role(tokens, i, name@)),
        _ => None,
    }
}

/// The classified spans of the first `n` tokens, in order.
pub open spec fn colored(tokens: Seq<Token>, n: int) -> Seq<Raw>
    decreases n,
{
    if n <= 0 {
        Seq::empty()
    } else {
        let before = colored(tokens, n - 1);
        let span = tokens[n - 1].span;
        match token_role(tokens, n - 1) {
            Some((sem, mods)) => before.push(Raw { lo: span.lo, hi: span.hi, sem, mods }),
            None => before,
        }
    }
}

/// Classifies each token into a role, using light look around for the cases the
/// token alone cannot settle.
pub fn classify(tokens: &[Token]) -> (raws: Vec<Raw>)
    ensures
        raws@ == colored(tokens@, tokens@.len() as int),
{
    let mut raws: Vec<Raw> = Vec::new();
    // A name right after one of these keywords is that kind's declaration.
    let mut decl_pending: Option<Sem> = None;
    // A name right after `@` is a directive name.
    let mut at_pending: bool = false;
    // Inside a type position, a return type after `->` or the head of an `impl`,
    // a bare name is a type. It ends at the `{` that opens the body, at a newline,
    // or at the comma or paren that closes the position it opened in.
    let mut type_mode: bool = false;
    // The paren and bracket nesting depth where the current type position began,
    // and the angle bracket nesting inside it. A comma at the opening depth with
    // no open generic ends the type, but a comma deeper in, inside a tuple type's
    // parens or a generic's angle brackets, does not.
    let mut depth: i128 = 0;
    let mut type_depth: i128 = 0;
    let mut angle: i128 = 0;
    let mut i: usize = 0;
    while i < tokens.len()
        invariant
            0 <= i <= tokens@.len(),
            raws@ == colored(tokens@, i as int),
            decl_pending == declared_as(tokens@, i as int),
            at_pending == after_at(tokens@, i as int),
            type_mode == (type_scope(tokens@, i as int) is Some),
            type_mode ==> type_scope(tokens@, i as int)->0 == (TypeScope {
                base: type_depth as int,
                angle: angle as int,
            }),
            depth == paren_depth(tokens@, i as int),
            -i <= depth <= i,
            0 <= angle <= i,
        decreases tokens@.len() - i,
    {
        let tok = &tokens[i];
        if tok.nl_before {
            type_mode = false;
        }
        match &tok.kind {
            TokenKind::Kw(kw) => {
                raws.push(raw(tok, Sem::Keyword, 0));
                decl_pending = match kw {
                    Keyword::Func => Some(Sem::Function),
                    Keyword::Struct => Some(Sem::Struct),
                    Keyword::Enum => Some(Sem::Enum),
                    Keyword::Interface => Some(Sem::Interface),
                    Keyword::Monad => Some(Sem::Type),
                    _ => None,
                };
                if matches!(kw, Keyword::Impl) {
                    type_mode = true;
                    type_depth = depth;
                    angle = 0;
                }
                at_pending = false;
            },
            TokenKind::Bool => {
                raws.push(raw(tok, Sem::Keyword, 0));
                decl_pending = None;
                at_pending = false;
            },
            TokenKind::Int | TokenKind::Float => {
                raws.push(raw(tok, Sem::Number, 0));
                decl_pending = None;
                at_pending = false;
            },
            TokenKind::Str | TokenKind::Char => {
                raws.push(raw(tok, Sem::String, 0));
                decl_pending = None;
                at_pending = false;
            },
            TokenKind::Ident(name) => {
                let (sem, mods) = if at_pending {
                    (Sem::Macro, 0u32)
                } else if let Some(kind) = decl_pending {
                    (kind, DECL)
                } else if is_primitive(name) {
                    (Sem::Type, DEFLIB)
                } else if type_mode {
                    (Sem::Type, 0u32)
                } else if next_is_call(tokens, i) {
                    (Sem::Function, 0u32)
                } else {
                    (Sem::Variable, 0u32)
                };
                raws.push(raw(tok, sem, mods));
                decl_pending = None;
                at_pending = false;
            },
            TokenKind::At => {
                // The `@` sigil is not colored on its own; the name after it is.
                at_pending = true;
            },
            TokenKind::Arrow => {
                type_mode = true;
                type_depth = depth;
                angle = 0;
                decl_pending = None;
                at_pending = false;
            },
            TokenKind::LParen | TokenKind::LBracket => {
                depth += 1;
                decl_pending = None;
                at_pending = false;
            },
            TokenKind::RParen | TokenKind::RBracket => {
                depth -= 1;
                // The position that opened the type has closed.
                if type_mode && depth < type_depth {
                    type_mode = false;
                }
                decl_pending = None;
                at_pending = false;
            },
            TokenKind::Lt => {
                if type_mode {
                    angle += 1;
                }
                decl_pending = None;
                at_pending = false;
            },
            TokenKind::Gt => {
                if type_mode && angle > 0 {
                    angle -= 1;
                }
                decl_pending = None;
                at_pending = false;
            },
            TokenKind::Shr => {
                if type_mode {
                    angle = if angle > 2 {
                        angle - 2
                    } else {
                        0
                    };
                }
                decl_pending = None;
                at_pending = false;
            },
            TokenKind::Comma => {
                // A comma at the depth the type opened, outside any generic, ends
                // it. One inside a tuple type's parens or a generic's angles does
                // not, so those type arguments stay types.
                if type_mode && depth == type_depth && angle == 0 {
                    type_mode = false;
                }
                decl_pending = None;
                at_pending = false;
            },
            TokenKind::LBrace => {
                type_mode = false;
                decl_pending = None;
                at_pending = false;
            },
            _ => {
                decl_pending = None;
                at_pending = false;
            },
        }
        i += 1;
    }
    raws
}

/// True when the token at `i` is immediately followed by `(`, the shape of a
/// call or a declaration's parameter list.
pub fn next_is_call(tokens: &[Token], i: usize) -> (call: bool)
    ensures
        call == calls(tokens@, i as int),
{
    i < tokens.len() && tokens.len() - i > 1 && matches!(tokens[i + 1].kind, TokenKind::LParen)
}

/// Builds a raw span from a token.
pub fn raw(tok: &Token, sem: Sem, mods: u32) -> (raw: Raw)
    ensures
        raw == (Raw { lo: tok.span.lo, hi: tok.span.hi, sem, mods }),
{
    Raw { lo: tok.span.lo, hi: tok.span.hi, sem, mods }
}

/// The byte of a slash, two of which open a comment.
pub const SLASH: u8 = 0x2f;

/// The byte of a line feed, which ends a line.
pub const NEWLINE: u8 = 0x0a;

/// The byte of a carriage return, which ends a line too.
pub const RETURN: u8 = 0x0d;

/// The first line break at or after `p`, or the end of the text.
pub open spec fn line_end(bytes: Seq<u8>, p: int) -> int
    decreases bytes.len() - p,
{
    if p >= bytes.len() || bytes[p] == NEWLINE || bytes[p] == RETURN {
        p
    } else {
        line_end(bytes, p + 1)
    }
}

/// A line ends no earlier than any point on it, and holds no break before that.
pub proof fn lemma_line_end(bytes: Seq<u8>, p: int)
    requires
        0 <= p <= bytes.len(),
    ensures
        p <= line_end(bytes, p) <= bytes.len(),
        forall|q: int|
            p <= q < line_end(bytes, p) ==> #[trigger] bytes[q] != NEWLINE && bytes[q] != RETURN,
        line_end(bytes, p) < bytes.len() ==> bytes[line_end(bytes, p)] == NEWLINE
            || bytes[line_end(bytes, p)] == RETURN,
    decreases bytes.len() - p,
{
    if p < bytes.len() && bytes[p] != NEWLINE && bytes[p] != RETURN {
        lemma_line_end(bytes, p + 1);
    }
}

/// Whether `//` stands at byte `p`.
pub open spec fn slashes_at(bytes: Seq<u8>, p: int) -> bool {
    bytes[p] == SLASH && bytes[p + 1] == SLASH
}

/// The comments that start from byte `p` on and have both slashes before byte
/// `hi`, each running to the end of its line.
pub open spec fn gap_comments(bytes: Seq<u8>, p: int, hi: int) -> Seq<Raw>
    decreases bytes.len() + 2 - p,
{
    if p < 0 || p + 1 >= hi || hi > bytes.len() {
        Seq::empty()
    } else if slashes_at(bytes, p) {
        let end = line_end(bytes, p);
        proof {
            lemma_line_end(bytes, p);
        }
        seq![Raw { lo: p as u32, hi: end as u32, sem: Sem::Comment, mods: 0 }] + gap_comments(
            bytes,
            end + 1,
            hi,
        )
    } else {
        gap_comments(bytes, p + 1, hi)
    }
}

/// How far the first `n` tokens reach.
pub open spec fn reach(tokens: Seq<Token>, n: int) -> int
    decreases n,
{
    if n <= 0 {
        0
    } else {
        let before = reach(tokens, n - 1);
        if tokens[n - 1].span.hi > before {
            tokens[n - 1].span.hi as int
        } else {
            before
        }
    }
}

/// Where the gap before token `i` ends: at that token, or at the end of the text
/// when the token lies past it.
pub open spec fn gap_end(tokens: Seq<Token>, bytes: Seq<u8>, i: int) -> int {
    if tokens[i].span.lo <= bytes.len() {
        tokens[i].span.lo as int
    } else {
        bytes.len() as int
    }
}

/// The comments in the gaps before the first `n` tokens.
pub open spec fn comments_before(tokens: Seq<Token>, bytes: Seq<u8>, n: int) -> Seq<Raw>
    decreases n,
{
    if n <= 0 {
        Seq::empty()
    } else {
        comments_before(tokens, bytes, n - 1) + gap_comments(
            bytes,
            reach(tokens, n - 1),
            gap_end(tokens, bytes, n - 1),
        )
    }
}

/// The comments of a text: those in the gaps between tokens, then those after the
/// last token.
pub open spec fn comments_of(tokens: Seq<Token>, bytes: Seq<u8>) -> Seq<Raw> {
    let n = tokens.len() as int;
    comments_before(tokens, bytes, n) + gap_comments(bytes, reach(tokens, n), bytes.len() as int)
}

/// Recovers comment spans by scanning the gaps between token spans for `//`. A
/// `//` inside a string or char literal sits within that token's span, never in
/// a gap, so this never mistakes it for a comment.
pub fn comments(tokens: &[Token], text: &str) -> (out: Vec<Raw>)
    requires
        fits(text@),
    ensures
        out@ == comments_of(tokens@, encode_utf8(text@)),
{
    let ghost bytes = encode_utf8(text@);
    let mut out: Vec<Raw> = Vec::new();
    let mut cursor: usize = 0;
    let mut i: usize = 0;
    while i < tokens.len()
        invariant
            fits(text@),
            bytes == encode_utf8(text@),
            0 <= i <= tokens@.len(),
            cursor == reach(tokens@, i as int),
            out@ == comments_before(tokens@, bytes, i as int),
        decreases tokens@.len() - i,
    {
        let lo: usize = tokens[i].span.lo as usize;
        let hi: usize = tokens[i].span.hi as usize;
        proof {
            lemma_encode_len(text@);
        }
        scan_gap(text, cursor, lo, &mut out);
        if hi > cursor {
            cursor = hi;
        }
        i += 1;
    }
    proof {
        lemma_encode_len(text@);
    }
    scan_gap(text, cursor, text.as_bytes().len(), &mut out);
    out
}

/// Emits a comment span for each `//` found in `text[lo..hi]`, each running to
/// the end of its line.
pub fn scan_gap(text: &str, lo: usize, hi: usize, out: &mut Vec<Raw>)
    requires
        fits(text@),
    ensures
        final(out)@ == old(out)@ + gap_comments(
            encode_utf8(text@),
            lo as int,
            if hi <= byte_len(text@) {
                hi as int
            } else {
                byte_len(text@) as int
            },
        ),
{
    let bytes = text.as_bytes();
    proof {
        lemma_encode_len(text@);
    }
    let hi: usize = if hi <= bytes.len() {
        hi
    } else {
        bytes.len()
    };
    let mut p: usize = lo;
    let ghost start = out@;
    let ghost want = gap_comments(bytes@, lo as int, hi as int);
    while p < hi && hi - p > 1
        invariant
            bytes@.len() <= u32::MAX,
            hi <= bytes@.len(),
            out@ + gap_comments(bytes@, p as int, hi as int) == start + want,
        decreases hi - p,
    {
        let ghost before = out@;
        let ghost from = p as int;
        if bytes[p] == SLASH && bytes[p + 1] == SLASH {
            let mut end: usize = p;
            while end < bytes.len() && bytes[end] != NEWLINE && bytes[end] != RETURN
                invariant
                    from <= end <= bytes@.len(),
                    line_end(bytes@, from) == line_end(bytes@, end as int),
                decreases bytes@.len() - end,
            {
                end += 1;
            }
            out.push(Raw { lo: p as u32, hi: end as u32, sem: Sem::Comment, mods: 0 });
            p = if end < hi {
                end + 1
            } else {
                hi
            };
            proof {
                let rest = gap_comments(bytes@, p as int, hi as int);
                assert(gap_comments(bytes@, end + 1, hi as int) =~= rest);
                assert(before + gap_comments(bytes@, from, hi as int) =~= out@ + rest);
            }
        } else {
            p += 1;
        }
    }
    proof {
        assert(out@ + gap_comments(bytes@, p as int, hi as int) =~= out@);
    }
}

/// The highlighted span a classified one becomes, if it stays on one line and is
/// not empty. A span that somehow crosses a line is dropped rather than emitted
/// malformed.
pub open spec fn item_of(s: Seq<char>, raw: Raw) -> Option<Item> {
    let start = position_of(s, raw.lo as int);
    let end = position_of(s, raw.hi as int);
    if start.line == end.line && start.character < end.character {
        Some(
            Item {
                line: start.line,
                start: start.character,
                len: (end.character - start.character) as u32,
                ty: role_number(raw.sem),
                mods: raw.mods,
            },
        )
    } else {
        None
    }
}

/// The highlighted spans of the first `n` classified ones, in the order given.
pub open spec fn items_of(s: Seq<char>, raws: Seq<Raw>, n: int) -> Seq<Item>
    decreases n,
{
    if n <= 0 {
        Seq::empty()
    } else {
        match item_of(s, raws[n - 1]) {
            Some(item) => items_of(s, raws, n - 1).push(item),
            None => items_of(s, raws, n - 1),
        }
    }
}

/// Item `i` as the protocol sends it: its line counts from the line of the item
/// before, and so does its column when both are on one line.
pub open spec fn delta(items: Seq<Item>, i: int) -> SemanticToken {
    let item = items[i];
    let line = if i > 0 {
        items[i - 1].line
    } else {
        0
    };
    let start = if i > 0 {
        items[i - 1].start
    } else {
        0
    };
    SemanticToken {
        delta_line: (item.line - line) as u32,
        delta_start: if item.line == line {
            (item.start - start) as u32
        } else {
            item.start
        },
        length: item.len,
        token_type: item.ty,
        token_modifiers_bitset: item.mods,
    }
}

/// Items as the protocol sends them.
pub open spec fn deltas(items: Seq<Item>) -> Seq<SemanticToken> {
    Seq::new(items.len(), |i: int| delta(items, i))
}

/// Whether `sent` is the protocol form of a text's classified spans, in the order
/// they start.
pub open spec fn encodes(s: Seq<char>, raws: Seq<Raw>, sent: Seq<SemanticToken>) -> bool {
    exists|items: Seq<Item>| #[trigger]
        stably_sorted(items_of(s, raws, raws.len() as int), items) && sent == deltas(items)
}

/// Converts classified byte spans into the protocol's delta encoded tokens,
/// sorted by position, with lengths counted in UTF-16 code units. A span that
/// somehow crosses a line is dropped rather than emitted malformed.
pub fn encode(text: &str, raws: &Vec<Raw>) -> (out: Vec<SemanticToken>)
    requires
        fits(text@),
    ensures
        encodes(text@, raws@, out@),
{
    let index = LineIndex::new(text);
    let mut items: Vec<Item> = Vec::new();
    let mut i: usize = 0;
    while i < raws.len()
        invariant
            index.maps(text@),
            0 <= i <= raws@.len(),
            items@ == items_of(text@, raws@, i as int),
        decreases raws@.len() - i,
    {
        let r: Raw = raws[i];
        let start = index.position(text, r.lo);
        let end = index.position(text, r.hi);
        if end.line == start.line && end.character > start.character {
            let len: u32 = end.character - start.character;
            items.push(
                Item {
                    line: start.line,
                    start: start.character,
                    len,
                    ty: type_index(r.sem),
                    mods: r.mods,
                },
            );
        }
        i += 1;
    }
    let ordered = sort_by_start(&items);
    let mut out: Vec<SemanticToken> = Vec::new();
    let mut prev_line: u32 = 0;
    let mut prev_start: u32 = 0;
    let mut k: usize = 0;
    while k < ordered.len()
        invariant
            sorted(ordered@),
            0 <= k <= ordered@.len(),
            k == 0 ==> prev_line == 0 && prev_start == 0,
            k > 0 ==> prev_line == ordered@[k - 1].line && prev_start == ordered@[k - 1].start,
            out@.len() == k,
            forall|j: int| 0 <= j < k ==> #[trigger] out@[j] == delta(ordered@, j),
        decreases ordered@.len() - k,
    {
        let item: Item = ordered[k];
        proof {
            if k > 0 {
                assert(ordered@[k - 1].starts_by(ordered@[k as int]));
            }
        }
        let delta_line: u32 = item.line - prev_line;
        let delta_start: u32 = if delta_line == 0 {
            item.start - prev_start
        } else {
            item.start
        };
        out.push(
            SemanticToken {
                delta_line,
                delta_start,
                length: item.len,
                token_type: item.ty,
                token_modifiers_bitset: item.mods,
            },
        );
        prev_line = item.line;
        prev_start = item.start;
        k += 1;
    }
    assert(out@ =~= deltas(ordered@));
    out
}

/// Builds the full document semantic tokens for `text` from the tokens it lexes
/// to. The lexer recovers past errors, so this still highlights a buffer that
/// does not fully parse.
pub fn semantic_tokens(text: &str, tokens: &[Token]) -> (out: Vec<SemanticToken>)
    requires
        fits(text@),
    ensures
        encodes(
            text@,
            colored(tokens@, tokens@.len() as int) + comments_of(tokens@, encode_utf8(text@)),
            out@,
        ),
{
    let mut raws = classify(tokens);
    let mut found = comments(tokens, text);
    raws.append(&mut found);
    encode(text, &raws)
}

/// A text and its classified spans have one protocol form only.
pub proof fn law_encoding_is_unique(
    s: Seq<char>,
    raws: Seq<Raw>,
    a: Seq<SemanticToken>,
    b: Seq<SemanticToken>,
)
    requires
        encodes(s, raws, a),
        encodes(s, raws, b),
    ensures
        a == b,
{
    let input = items_of(s, raws, raws.len() as int);
    let x = choose|x: Seq<Item>| #[trigger] stably_sorted(input, x) && a == deltas(x);
    let y = choose|y: Seq<Item>| #[trigger] stably_sorted(input, y) && b == deltas(y);
    law_stable_order_is_unique(input, x, y);
}

/// The absolute items a client reads out of the first `n` tokens it is sent: each
/// line counts on from the line before, and each column too while the line stays
/// the same.
pub open spec fn decoded(sent: Seq<SemanticToken>, n: int) -> Seq<Item>
    decreases n,
{
    if n <= 0 {
        Seq::empty()
    } else {
        let before = decoded(sent, n - 1);
        let tok = sent[n - 1];
        let line = if before.len() > 0 {
            before.last().line
        } else {
            0
        };
        let start = if before.len() > 0 {
            before.last().start
        } else {
            0
        };
        before.push(
            Item {
                line: (line + tok.delta_line) as u32,
                start: if tok.delta_line == 0 {
                    (start + tok.delta_start) as u32
                } else {
                    tok.delta_start
                },
                len: tok.length,
                ty: tok.token_type,
                mods: tok.token_modifiers_bitset,
            },
        )
    }
}

/// A client that decodes what the server sends gets back the highlighted spans,
/// in the order they start.
pub proof fn law_decoding_gives_back_the_items(items: Seq<Item>)
    requires
        sorted(items),
    ensures
        decoded(deltas(items), items.len() as int) == items,
{
    lemma_decoded(items, items.len() as int);
    assert(items.take(items.len() as int) =~= items);
}

proof fn lemma_decoded(items: Seq<Item>, n: int)
    requires
        sorted(items),
        0 <= n <= items.len(),
    ensures
        decoded(deltas(items), n) == items.take(n),
    decreases n,
{
    if n > 0 {
        lemma_decoded(items, n - 1);
        if n > 1 {
            assert(items[n - 2].starts_by(items[n - 1]));
            assert(items.take(n - 1).last() == items[n - 2]);
        }
        assert(decoded(deltas(items), n) =~= items.take(n));
    } else {
        assert(items.take(0) =~= Seq::<Item>::empty());
    }
}

/// Whether a token opens a type position.
pub open spec fn opens_type(tok: Token) -> bool {
    tok.kind is Arrow || tok.kind == TokenKind::Kw(Keyword::Impl)
}

/// How many generic argument lists are open between an opener at `j` and token
/// `k`.
pub open spec fn generic_depth(tokens: Seq<Token>, j: int, k: int) -> int
    decreases k - j,
{
    if k <= j + 1 {
        0
    } else {
        let before = generic_depth(tokens, j, k - 1);
        match tokens[k - 1].kind {
            TokenKind::Lt => before + 1,
            TokenKind::Gt => if before > 0 {
                before - 1
            } else {
                before
            },
            TokenKind::Shr => if before > 2 {
                before - 2
            } else {
                0
            },
            _ => before,
        }
    }
}

/// Whether token `k` ends the type position that token `j` opened.
pub open spec fn ends_type(tokens: Seq<Token>, j: int, k: int) -> bool {
    let opened = paren_depth(tokens, j + 1);
    let here = paren_depth(tokens, k + 1);
    ||| tokens[k].nl_before
    ||| tokens[k].kind is LBrace
    ||| (tokens[k].kind is RParen || tokens[k].kind is RBracket) && here < opened
    ||| tokens[k].kind is Comma && here == opened && generic_depth(tokens, j, k) == 0
}

/// Whether token `j` opened a type position that is still open before token `i`.
pub open spec fn opened_by(tokens: Seq<Token>, j: int, i: int) -> bool {
    &&& 0 <= j < i
    &&& opens_type(tokens[j])
    &&& forall|k: int|
        j < k < i ==> !opens_type(#[trigger] tokens[k]) && !ends_type(tokens, j, k)
}

/// A type position is open exactly when the last `->` or `impl` opened one and
/// nothing since has ended it: no line break, no `{`, no bracket that closes
/// outside it, and no comma of the level it opened at.
pub proof fn law_type_position_lasts_until_ended(tokens: Seq<Token>, i: int)
    requires
        0 <= i <= tokens.len(),
    ensures
        type_scope(tokens, i) is Some <==> exists|j: int| #[trigger] opened_by(tokens, j, i),
        forall|j: int| #[trigger]
            opened_by(tokens, j, i) ==> type_scope(tokens, i) == Some(
                TypeScope {
                    base: paren_depth(tokens, j + 1),
                    angle: generic_depth(tokens, j, i),
                },
            ),
    decreases i,
{
    if i > 0 {
        law_type_position_lasts_until_ended(tokens, i - 1);
        let tok = tokens[i - 1];
        if opens_type(tok) {
            assert(opened_by(tokens, i - 1, i));
            assert forall|j: int| #[trigger] opened_by(tokens, j, i) implies j == i - 1 by {
                if j < i - 1 {
                    assert(!opens_type(tokens[i - 1]));
                }
            }
        } else {
            assert forall|j: int| #[trigger] opened_by(tokens, j, i) implies opened_by(
                tokens,
                j,
                i - 1,
            ) && !ends_type(tokens, j, i - 1) && type_scope(tokens, i) == Some(
                TypeScope {
                    base: paren_depth(tokens, j + 1),
                    angle: generic_depth(tokens, j, i),
                },
            ) by {
                assert(j != i - 1);
                assert(!ends_type(tokens, j, i - 1)) by {
                    assert(!opens_type(tokens[i - 1]));
                }
                assert(opened_by(tokens, j, i - 1));
            }
            if type_scope(tokens, i) is Some {
                let j = choose|j: int| #[trigger] opened_by(tokens, j, i - 1);
                assert(opened_by(tokens, j, i - 1));
                assert(!ends_type(tokens, j, i - 1));
                assert(opened_by(tokens, j, i));
            }
        }
    }
}

/// Every comment found in a gap starts in that gap with two slashes, and runs to
/// the end of its line without crossing a line break.
proof fn lemma_gap_comments(bytes: Seq<u8>, p: int, hi: int, c: int)
    requires
        0 <= p,
        hi <= bytes.len() <= u32::MAX,
        0 <= c < gap_comments(bytes, p, hi).len(),
    ensures
        ({
            let found = gap_comments(bytes, p, hi)[c];
            &&& p <= found.lo && found.lo + 1 < hi
            &&& slashes_at(bytes, found.lo as int)
            &&& found.hi == line_end(bytes, found.lo as int)
            &&& found.sem == Sem::Comment && found.mods == 0
        }),
    decreases bytes.len() + 2 - p,
{
    if p + 1 < hi {
        if slashes_at(bytes, p) {
            lemma_line_end(bytes, p);
            if c > 0 {
                lemma_gap_comments(bytes, line_end(bytes, p) + 1, hi, c - 1);
            }
        } else {
            lemma_gap_comments(bytes, p + 1, hi, c);
        }
    }
}

/// Whether tokens come in the order they start.
pub open spec fn in_order(tokens: Seq<Token>) -> bool {
    forall|i: int, j: int|
        0 <= i <= j < tokens.len() ==> (#[trigger] tokens[i]).span.lo <= (
        #[trigger] tokens[j]).span.lo
}

/// Every token reaches no further than all of them together.
proof fn lemma_reach(tokens: Seq<Token>, n: int, t: int)
    requires
        0 <= t < n <= tokens.len(),
    ensures
        tokens[t].span.hi <= reach(tokens, n),
    decreases n,
{
    if t < n - 1 {
        lemma_reach(tokens, n - 1, t);
    }
}

proof fn lemma_reach_grows(tokens: Seq<Token>, n: int)
    ensures
        0 <= reach(tokens, n),
    decreases n,
{
    if n > 0 {
        lemma_reach_grows(tokens, n - 1);
    }
}

/// What holds of every comment: it starts with two slashes, runs to the end of
/// its line, and starts inside no token.
pub open spec fn is_comment(tokens: Seq<Token>, bytes: Seq<u8>, found: Raw) -> bool {
    &&& found.sem == Sem::Comment && found.mods == 0
    &&& found.lo + 1 < bytes.len()
    &&& slashes_at(bytes, found.lo as int)
    &&& found.hi == line_end(bytes, found.lo as int)
    &&& forall|t: int|
        0 <= t < tokens.len() ==> !((#[trigger] tokens[t]).span.lo <= found.lo
            < tokens[t].span.hi)
}

proof fn lemma_comments_before(tokens: Seq<Token>, bytes: Seq<u8>, n: int, c: int)
    requires
        bytes.len() <= u32::MAX,
        in_order(tokens),
        0 <= n <= tokens.len(),
        0 <= c < comments_before(tokens, bytes, n).len(),
    ensures
        is_comment(tokens, bytes, comments_before(tokens, bytes, n)[c]),
    decreases n,
{
    if n > 0 {
        let before = comments_before(tokens, bytes, n - 1);
        if c < before.len() {
            lemma_comments_before(tokens, bytes, n - 1, c);
        } else {
            let p = reach(tokens, n - 1);
            let hi = gap_end(tokens, bytes, n - 1);
            lemma_reach_grows(tokens, n - 1);
            lemma_gap_comments(bytes, p, hi, c - before.len());
            let found = gap_comments(bytes, p, hi)[c - before.len()];
            assert forall|t: int| 0 <= t < tokens.len() implies !(
            (#[trigger] tokens[t]).span.lo <= found.lo < tokens[t].span.hi) by {
                if t < n - 1 {
                    lemma_reach(tokens, n - 1, t);
                } else {
                    assert(tokens[n - 1].span.lo <= tokens[t].span.lo);
                }
            }
        }
    }
}

/// A `//` inside a string or any other token is never taken for a comment, and
/// what is taken for one is one: two slashes outside every token, up to the end
/// of the line.
pub proof fn law_comments_lie_outside_tokens(tokens: Seq<Token>, bytes: Seq<u8>, c: int)
    requires
        bytes.len() <= u32::MAX,
        in_order(tokens),
        0 <= c < comments_of(tokens, bytes).len(),
    ensures
        is_comment(tokens, bytes, comments_of(tokens, bytes)[c]),
{
    let n = tokens.len() as int;
    let before = comments_before(tokens, bytes, n);
    if c < before.len() {
        lemma_comments_before(tokens, bytes, n, c);
    } else {
        let p = reach(tokens, n);
        lemma_reach_grows(tokens, n);
        lemma_gap_comments(bytes, p, bytes.len() as int, c - before.len());
        assert forall|t: int| 0 <= t < tokens.len() implies !(
        (#[trigger] tokens[t]).span.lo <= comments_of(tokens, bytes)[c].lo
            < tokens[t].span.hi) by {
            lemma_reach(tokens, n, t);
        }
    }
}

/// Whether byte `q` lies in a comment of the list.
pub open spec fn commented(found: Seq<Raw>, q: int) -> bool {
    exists|c: int| 0 <= c < found.len() && (#[trigger] found[c]).lo <= q < found[c].hi
}

proof fn lemma_gap_complete(bytes: Seq<u8>, p: int, hi: int, q: int)
    requires
        0 <= p <= q,
        q + 1 < hi <= bytes.len() <= u32::MAX,
        slashes_at(bytes, q),
    ensures
        commented(gap_comments(bytes, p, hi), q),
    decreases bytes.len() + 2 - p,
{
    let all = gap_comments(bytes, p, hi);
    if slashes_at(bytes, p) {
        lemma_line_end(bytes, p);
        let end = line_end(bytes, p);
        if q < end {
            assert(all[0].lo <= q < all[0].hi);
        } else {
            lemma_gap_complete(bytes, end + 1, hi, q);
            let rest = gap_comments(bytes, end + 1, hi);
            let c = choose|c: int|
                0 <= c < rest.len() && (#[trigger] rest[c]).lo <= q < rest[c].hi;
            assert(all[c + 1] == rest[c]);
        }
    } else {
        lemma_gap_complete(bytes, p + 1, hi, q);
    }
}

/// The comments before fewer tokens are among those before more.
proof fn lemma_comments_grow(tokens: Seq<Token>, bytes: Seq<u8>, m: int, n: int, q: int)
    requires
        0 <= m <= n <= tokens.len(),
        commented(comments_before(tokens, bytes, m), q),
    ensures
        commented(comments_before(tokens, bytes, n), q),
    decreases n - m,
{
    if m < n {
        lemma_comments_grow(tokens, bytes, m, n - 1, q);
        let before = comments_before(tokens, bytes, n - 1);
        let c = choose|c: int|
            0 <= c < before.len() && (#[trigger] before[c]).lo <= q < before[c].hi;
        assert(comments_before(tokens, bytes, n)[c] == before[c]);
    }
}

/// Tokens that end by `q` reach no further than `q`.
proof fn lemma_reach_within(tokens: Seq<Token>, n: int, q: int)
    requires
        0 <= n <= tokens.len(),
        0 <= q,
        forall|t: int| 0 <= t < n ==> (#[trigger] tokens[t]).span.hi <= q,
    ensures
        0 <= reach(tokens, n) <= q,
    decreases n,
{
    if n > 0 {
        lemma_reach_within(tokens, n - 1, q);
    }
}

/// The first token that starts behind the slashes at `q`, or the end of the list.
proof fn lemma_first_behind(tokens: Seq<Token>, q: int, i: int) -> (n: int)
    requires
        0 <= i <= tokens.len(),
        forall|t: int| 0 <= t < i ==> (#[trigger] tokens[t]).span.lo < q + 2,
    ensures
        i <= n <= tokens.len(),
        forall|t: int| 0 <= t < n ==> (#[trigger] tokens[t]).span.lo < q + 2,
        n < tokens.len() ==> tokens[n].span.lo >= q + 2,
    decreases tokens.len() - i,
{
    if i < tokens.len() && tokens[i].span.lo < q + 2 {
        lemma_first_behind(tokens, q, i + 1)
    } else {
        i
    }
}

/// No comment is missed: two slashes that no token touches lie in a comment.
pub proof fn law_every_comment_is_found(tokens: Seq<Token>, bytes: Seq<u8>, q: int)
    requires
        bytes.len() <= u32::MAX,
        0 <= q,
        q + 1 < bytes.len(),
        slashes_at(bytes, q),
        forall|t: int|
            0 <= t < tokens.len() ==> (#[trigger] tokens[t]).span.hi <= q || tokens[t].span.lo >= q
                + 2,
    ensures
        commented(comments_of(tokens, bytes), q),
{
    let all = comments_of(tokens, bytes);
    let len = tokens.len() as int;
    let n = lemma_first_behind(tokens, q, 0);
    lemma_reach_within(tokens, n, q);
    let before = comments_before(tokens, bytes, n);
    if n < len {
        lemma_gap_complete(bytes, reach(tokens, n), gap_end(tokens, bytes, n), q);
        let gap = gap_comments(bytes, reach(tokens, n), gap_end(tokens, bytes, n));
        let c = choose|c: int| 0 <= c < gap.len() && (#[trigger] gap[c]).lo <= q < gap[c].hi;
        assert(comments_before(tokens, bytes, n + 1)[before.len() + c] == gap[c]);
        lemma_comments_grow(tokens, bytes, n + 1, len, q);
        let most = comments_before(tokens, bytes, len);
        let d = choose|d: int| 0 <= d < most.len() && (#[trigger] most[d]).lo <= q < most[d].hi;
        assert(all[d] == most[d]);
    } else {
        lemma_gap_complete(bytes, reach(tokens, n), bytes.len() as int, q);
        let gap = gap_comments(bytes, reach(tokens, n), bytes.len() as int);
        let c = choose|c: int| 0 <= c < gap.len() && (#[trigger] gap[c]).lo <= q < gap[c].hi;
        assert(all[before.len() + c] == gap[c]);
    }
}

/// The spans that are colored are those of the keywords, literals and names, every
/// one of them, once and in order. Punctuation is not colored.
pub proof fn law_every_word_and_literal_is_colored_once(tokens: Seq<Token>)
    ensures
        colored(tokens, tokens.len() as int).map_values(|r: Raw| (r.lo, r.hi))
            == tokens.filter_map(
            |t: Token|
                match t.kind {
                    TokenKind::Kw(_)
                    | TokenKind::Bool
                    | TokenKind::Int
                    | TokenKind::Float
                    | TokenKind::Str
                    | TokenKind::Char
                    | TokenKind::Ident(_) => Some((t.span.lo, t.span.hi)),
                    _ => None,
                },
        ),
{
    let pick = |t: Token|
        match t.kind {
            TokenKind::Kw(_)
            | TokenKind::Bool
            | TokenKind::Int
            | TokenKind::Float
            | TokenKind::Str
            | TokenKind::Char
            | TokenKind::Ident(_) => Some((t.span.lo, t.span.hi)),
            _ => None,
        };
    lemma_colored_spans(tokens, tokens.len() as int, pick);
    assert(tokens.take(tokens.len() as int) =~= tokens);
    assert(colored(tokens, tokens.len() as int).map_values(|r: Raw| (r.lo, r.hi))
        =~= tokens.filter_map(pick));
}

proof fn lemma_colored_spans(
    tokens: Seq<Token>,
    n: int,
    pick: spec_fn(Token) -> Option<(u32, u32)>,
)
    requires
        0 <= n <= tokens.len(),
        forall|t: Token| #[trigger]
            pick(t) == match t.kind {
                TokenKind::Kw(_)
                | TokenKind::Bool
                | TokenKind::Int
                | TokenKind::Float
                | TokenKind::Str
                | TokenKind::Char
                | TokenKind::Ident(_) => Some((t.span.lo, t.span.hi)),
                _ => None,
            },
    ensures
        colored(tokens, n).len() == tokens.take(n).filter_map(pick).len(),
        forall|k: int|
            0 <= k < colored(tokens, n).len() ==> tokens.take(n).filter_map(pick)[k] == (
                (#[trigger] colored(tokens, n)[k]).lo,
                colored(tokens, n)[k].hi,
            ),
    decreases n,
{
    if n > 0 {
        lemma_colored_spans(tokens, n - 1, pick);
        assert(tokens.take(n).drop_last() =~= tokens.take(n - 1));
    }
}

proof fn lemma_colored_grows(tokens: Seq<Token>, m: int, n: int)
    requires
        0 <= m <= n <= tokens.len(),
    ensures
        colored(tokens, m).len() <= colored(tokens, n).len(),
        forall|k: int|
            0 <= k < colored(tokens, m).len() ==> #[trigger] colored(tokens, n)[k] == colored(
                tokens,
                m,
            )[k],
    decreases n - m,
{
    if m < n {
        lemma_colored_grows(tokens, m, n - 1);
    }
}

/// A literal or a keyword has the role of its kind wherever it stands: numbers are
/// numbers, strings and characters are strings, keywords and truth values are
/// keywords, none with a modifier. It is found in its place among the colored spans,
/// behind those of the tokens before it.
pub proof fn law_literals_and_keywords_keep_their_role(tokens: Seq<Token>, i: int)
    requires
        0 <= i < tokens.len(),
        !(tokens[i].kind is Ident),
    ensures
        ({
            let all = colored(tokens, tokens.len() as int);
            let k = colored(tokens, i).len() as int;
            let span = tokens[i].span;
            match tokens[i].kind {
                TokenKind::Int | TokenKind::Float => k < all.len() && all[k] == (Raw {
                    lo: span.lo,
                    hi: span.hi,
                    sem: Sem::Number,
                    mods: 0,
                }),
                TokenKind::Str | TokenKind::Char => k < all.len() && all[k] == (Raw {
                    lo: span.lo,
                    hi: span.hi,
                    sem: Sem::String,
                    mods: 0,
                }),
                TokenKind::Kw(_) | TokenKind::Bool => k < all.len() && all[k] == (Raw {
                    lo: span.lo,
                    hi: span.hi,
                    sem: Sem::Keyword,
                    mods: 0,
                }),
                _ => colored(tokens, i + 1) == colored(tokens, i),
            }
        }),
{
    lemma_colored_grows(tokens, i + 1, tokens.len() as int);
}

/// A name has the role that what stands around it gives it. Behind an `@` it is a
/// macro. Behind a declaration keyword it declares what the keyword says. Elsewhere a
/// builtin type's name is a type of the default library, any other name in a type
/// position is a type, one with an opening paren behind it is a function, and what is
/// left is a variable.
pub proof fn law_names_take_the_role_of_their_place(tokens: Seq<Token>, i: int)
    requires
        0 <= i < tokens.len(),
        tokens[i].kind is Ident,
    ensures
        ({
            let all = colored(tokens, tokens.len() as int);
            let k = colored(tokens, i).len() as int;
            let name = tokens[i].kind->Ident_0@;
            let behind = |kind: TokenKind| i > 0 && tokens[i - 1].kind == kind;
            let plain = !behind(TokenKind::At) && !behind(TokenKind::Kw(Keyword::Func)) && !behind(
                TokenKind::Kw(Keyword::Struct),
            ) && !behind(TokenKind::Kw(Keyword::Enum)) && !behind(
                TokenKind::Kw(Keyword::Interface),
            ) && !behind(TokenKind::Kw(Keyword::Monad));
            let typed = !tokens[i].nl_before && exists|j: int| #[trigger] opened_by(tokens, j, i);
            let called = i + 1 < tokens.len() && tokens[i + 1].kind == TokenKind::LParen;
            &&& k < all.len()
            &&& all[k].lo == tokens[i].span.lo && all[k].hi == tokens[i].span.hi
            &&& behind(TokenKind::At) ==> all[k].sem == Sem::Macro && all[k].mods == 0
            &&& behind(TokenKind::Kw(Keyword::Func)) ==> all[k].sem == Sem::Function && all[k].mods
                == 1
            &&& behind(TokenKind::Kw(Keyword::Struct)) ==> all[k].sem == Sem::Struct && all[k].mods
                == 1
            &&& behind(TokenKind::Kw(Keyword::Enum)) ==> all[k].sem == Sem::Enum && all[k].mods
                == 1
            &&& behind(TokenKind::Kw(Keyword::Interface)) ==> all[k].sem == Sem::Interface
                && all[k].mods == 1
            &&& behind(TokenKind::Kw(Keyword::Monad)) ==> all[k].sem == Sem::Type && all[k].mods
                == 1
            &&& plain && primitive(name) ==> all[k].sem == Sem::Type && all[k].mods == 2
            &&& plain && !primitive(name) && typed ==> all[k].sem == Sem::Type && all[k].mods == 0
            &&& plain && !primitive(name) && !typed && called ==> all[k].sem == Sem::Function
                && all[k].mods == 0
            &&& plain && !primitive(name) && !typed && !called ==> all[k].sem == Sem::Variable
                && all[k].mods == 0
        }),
{
    lemma_colored_grows(tokens, i + 1, tokens.len() as int);
    law_type_position_lasts_until_ended(tokens, i);
}

/// The paren depth counts what it says: parens and square brackets opened, less
/// those closed.
pub proof fn law_paren_depth_counts_brackets(tokens: Seq<Token>, i: int)
    requires
        0 <= i <= tokens.len(),
    ensures
        paren_depth(tokens, i) == tokens.take(i).filter_map(
            |t: Token|
                if t.kind == TokenKind::LParen || t.kind == TokenKind::LBracket {
                    Some(())
                } else {
                    None
                },
        ).len() - tokens.take(i).filter_map(
            |t: Token|
                if t.kind == TokenKind::RParen || t.kind == TokenKind::RBracket {
                    Some(())
                } else {
                    None
                },
        ).len(),
    decreases i,
{
    if i > 0 {
        law_paren_depth_counts_brackets(tokens, i - 1);
        assert(tokens.take(i).drop_last() =~= tokens.take(i - 1));
    } else {
        assert(tokens.take(0) =~= Seq::<Token>::empty());
    }
}

/// While no more generic argument lists close than were opened, those open are the
/// `<` less the `>`, where a `>>` closes two.
pub proof fn law_generics_nest(tokens: Seq<Token>, j: int, k: int)
    requires
        0 <= j < k <= tokens.len(),
        forall|m: int| j < m <= k ==> #[trigger] angle_balance(tokens, j, m) >= 0,
    ensures
        generic_depth(tokens, j, k) == angle_balance(tokens, j, k),
    decreases k - j,
{
    if k > j + 1 {
        law_generics_nest(tokens, j, k - 1);
        assert(angle_balance(tokens, j, k - 1) >= 0);
        assert(angle_balance(tokens, j, k) >= 0);
    }
}

/// The `<` behind token `j` and before `k`, less the `>`, where a `>>` counts for
/// two.
pub open spec fn angle_balance(tokens: Seq<Token>, j: int, k: int) -> int
    decreases k - j,
{
    if k <= j + 1 {
        0
    } else {
        angle_balance(tokens, j, k - 1) + match tokens[k - 1].kind {
            TokenKind::Lt => 1int,
            TokenKind::Gt => -1int,
            TokenKind::Shr => -2int,
            _ => 0int,
        }
    }
}

/// A comment is what it looks like: it begins with two slashes, which no token
/// takes in, and runs up to the next line feed, carriage return, or the end of the
/// text, and no further. It has the role of a comment and no modifier.
pub proof fn law_a_comment_runs_to_the_end_of_its_line(
    tokens: Seq<Token>,
    bytes: Seq<u8>,
    c: int,
)
    requires
        bytes.len() <= u32::MAX,
        in_order(tokens),
        0 <= c < comments_of(tokens, bytes).len(),
    ensures
        ({
            let found = comments_of(tokens, bytes)[c];
            &&& found.sem == Sem::Comment
            &&& found.mods == 0
            &&& found.lo + 2 <= found.hi <= bytes.len()
            &&& bytes[found.lo as int] == 0x2fu8 && bytes[found.lo + 1] == 0x2fu8
            &&& forall|q: int|
                found.lo <= q < found.hi ==> #[trigger] bytes[q] != 0x0au8 && bytes[q] != 0x0du8
            &&& found.hi < bytes.len() ==> bytes[found.hi as int] == 0x0au8
                || bytes[found.hi as int] == 0x0du8
            &&& forall|t: int|
                0 <= t < tokens.len() ==> !((#[trigger] tokens[t]).span.lo <= found.lo
                    < tokens[t].span.hi)
        }),
{
    law_comments_lie_outside_tokens(tokens, bytes, c);
    let found = comments_of(tokens, bytes)[c];
    lemma_line_end(bytes, found.lo as int);
    if found.hi <= found.lo + 1 {
        assert(bytes[found.lo as int] == 0x2fu8 && bytes[found.lo + 1] == 0x2fu8);
    }
}

/// Two slashes that no token touches lie in a comment.
pub proof fn law_no_comment_is_missed(tokens: Seq<Token>, bytes: Seq<u8>, q: int)
    requires
        bytes.len() <= u32::MAX,
        0 <= q,
        q + 1 < bytes.len(),
        bytes[q] == 0x2fu8,
        bytes[q + 1] == 0x2fu8,
        forall|t: int|
            0 <= t < tokens.len() ==> (#[trigger] tokens[t]).span.hi <= q || tokens[t].span.lo >= q
                + 2,
    ensures
        exists|c: int|
            0 <= c < comments_of(tokens, bytes).len() && (#[trigger] comments_of(
                tokens,
                bytes,
            )[c]).lo <= q < comments_of(tokens, bytes)[c].hi,
{
    law_every_comment_is_found(tokens, bytes, q);
}

/// Comments are listed in the order they start, none twice.
pub proof fn law_comments_come_in_order(tokens: Seq<Token>, bytes: Seq<u8>, c: int, d: int)
    requires
        bytes.len() <= u32::MAX,
        forall|t: int|
            0 <= t < tokens.len() ==> (#[trigger] tokens[t]).span.lo <= tokens[t].span.hi,
        0 <= c < d < comments_of(tokens, bytes).len(),
    ensures
        comments_of(tokens, bytes)[c].lo < comments_of(tokens, bytes)[d].lo,
{
    let n = tokens.len() as int;
    let before = comments_before(tokens, bytes, n);
    if d < before.len() {
        lemma_comments_before_order(tokens, bytes, n, c, d);
    } else {
        lemma_reach_grows(tokens, n);
        if c < before.len() {
            lemma_comments_before_bound(tokens, bytes, n, c);
            lemma_gap_comments(
                bytes,
                reach(tokens, n),
                bytes.len() as int,
                d - before.len(),
            );
        } else {
            lemma_gap_order(
                bytes,
                reach(tokens, n),
                bytes.len() as int,
                c - before.len(),
                d - before.len(),
            );
        }
    }
}

proof fn lemma_gap_order(bytes: Seq<u8>, p: int, hi: int, c: int, d: int)
    requires
        0 <= p,
        hi <= bytes.len() <= u32::MAX,
        0 <= c < d < gap_comments(bytes, p, hi).len(),
    ensures
        gap_comments(bytes, p, hi)[c].lo < gap_comments(bytes, p, hi)[d].lo,
    decreases bytes.len() + 2 - p,
{
    if slashes_at(bytes, p) {
        lemma_line_end(bytes, p);
        let next = line_end(bytes, p) + 1;
        lemma_gap_comments(bytes, next, hi, d - 1);
        if c > 0 {
            lemma_gap_order(bytes, next, hi, c - 1, d - 1);
        }
    } else {
        lemma_gap_order(bytes, p + 1, hi, c, d);
    }
}

proof fn lemma_comments_before_bound(tokens: Seq<Token>, bytes: Seq<u8>, n: int, c: int)
    requires
        bytes.len() <= u32::MAX,
        forall|t: int|
            0 <= t < tokens.len() ==> (#[trigger] tokens[t]).span.lo <= tokens[t].span.hi,
        0 <= n <= tokens.len(),
        0 <= c < comments_before(tokens, bytes, n).len(),
    ensures
        comments_before(tokens, bytes, n)[c].lo < reach(tokens, n),
    decreases n,
{
    if n > 0 {
        let before = comments_before(tokens, bytes, n - 1);
        if c < before.len() {
            lemma_comments_before_bound(tokens, bytes, n - 1, c);
        } else {
            lemma_reach_grows(tokens, n - 1);
            lemma_gap_comments(
                bytes,
                reach(tokens, n - 1),
                gap_end(tokens, bytes, n - 1),
                c - before.len(),
            );
            assert(tokens[n - 1].span.lo <= tokens[n - 1].span.hi);
        }
    }
}

proof fn lemma_comments_before_order(tokens: Seq<Token>, bytes: Seq<u8>, n: int, c: int, d: int)
    requires
        bytes.len() <= u32::MAX,
        forall|t: int|
            0 <= t < tokens.len() ==> (#[trigger] tokens[t]).span.lo <= tokens[t].span.hi,
        0 <= n <= tokens.len(),
        0 <= c < d < comments_before(tokens, bytes, n).len(),
    ensures
        comments_before(tokens, bytes, n)[c].lo < comments_before(tokens, bytes, n)[d].lo,
    decreases n,
{
    if n > 0 {
        let before = comments_before(tokens, bytes, n - 1);
        let p = reach(tokens, n - 1);
        let hi = gap_end(tokens, bytes, n - 1);
        lemma_reach_grows(tokens, n - 1);
        if d < before.len() {
            lemma_comments_before_order(tokens, bytes, n - 1, c, d);
        } else if c < before.len() {
            lemma_comments_before_bound(tokens, bytes, n - 1, c);
            lemma_gap_comments(bytes, p, hi, d - before.len());
        } else {
            lemma_gap_order(bytes, p, hi, c - before.len(), d - before.len());
        }
    }
}

/// The roles are numbered and named in one order, which the legend keeps.
pub proof fn law_roles_have_their_numbers(legend: SemanticTokensLegend)
    requires
        is_legend(legend),
    ensures
        role_number(Sem::Keyword) == 0 && legend.token_types@[0]@ == "keyword"@,
        role_number(Sem::Function) == 1 && legend.token_types@[1]@ == "function"@,
        role_number(Sem::Type) == 2 && legend.token_types@[2]@ == "type"@,
        role_number(Sem::Struct) == 3 && legend.token_types@[3]@ == "struct"@,
        role_number(Sem::Enum) == 4 && legend.token_types@[4]@ == "enum"@,
        role_number(Sem::Interface) == 5 && legend.token_types@[5]@ == "interface"@,
        role_number(Sem::Number) == 6 && legend.token_types@[6]@ == "number"@,
        role_number(Sem::String) == 7 && legend.token_types@[7]@ == "string"@,
        role_number(Sem::Comment) == 8 && legend.token_types@[8]@ == "comment"@,
        role_number(Sem::Variable) == 9 && legend.token_types@[9]@ == "variable"@,
        role_number(Sem::Macro) == 10 && legend.token_types@[10]@ == "macro"@,
        legend.token_types@.len() == 11,
        legend.token_modifiers@.len() == 2,
        legend.token_modifiers@[0]@ == "declaration"@,
        legend.token_modifiers@[1]@ == "defaultLibrary"@,
        DECL == 1 && DEFLIB == 2,
{
    assert(role_name(Sem::Keyword) == "keyword"@);
    assert(role_name(Sem::Function) == "function"@);
    assert(role_name(Sem::Type) == "type"@);
    assert(role_name(Sem::Struct) == "struct"@);
    assert(role_name(Sem::Enum) == "enum"@);
    assert(role_name(Sem::Interface) == "interface"@);
    assert(role_name(Sem::Number) == "number"@);
    assert(role_name(Sem::String) == "string"@);
    assert(role_name(Sem::Comment) == "comment"@);
    assert(role_name(Sem::Variable) == "variable"@);
    assert(role_name(Sem::Macro) == "macro"@);
}

/// Every classified span that covers something on one line is highlighted there,
/// with its length in the columns of that line, once and in its turn. One that
/// crosses a line or covers nothing is not.
pub proof fn law_spans_are_highlighted_where_they_lie(s: Seq<char>, raws: Seq<Raw>)
    ensures
        items_of(s, raws, raws.len() as int) == raws.filter_map(
            |r: Raw|
                {
                    let start = position_of(s, r.lo as int);
                    let end = position_of(s, r.hi as int);
                    if start.line == end.line && start.character < end.character {
                        Some(
                            Item {
                                line: start.line,
                                start: start.character,
                                len: (end.character - start.character) as u32,
                                ty: role_number(r.sem),
                                mods: r.mods,
                            },
                        )
                    } else {
                        None
                    }
                },
        ),
{
    let pick = |r: Raw|
        {
            let start = position_of(s, r.lo as int);
            let end = position_of(s, r.hi as int);
            if start.line == end.line && start.character < end.character {
                Some(
                    Item {
                        line: start.line,
                        start: start.character,
                        len: (end.character - start.character) as u32,
                        ty: role_number(r.sem),
                        mods: r.mods,
                    },
                )
            } else {
                None
            }
        };
    lemma_items_picked(s, raws, raws.len() as int, pick);
    assert(raws.take(raws.len() as int) =~= raws);
}

proof fn lemma_items_picked(
    s: Seq<char>,
    raws: Seq<Raw>,
    n: int,
    pick: spec_fn(Raw) -> Option<Item>,
)
    requires
        0 <= n <= raws.len(),
        forall|r: Raw| #[trigger] pick(r) == item_of(s, r),
    ensures
        items_of(s, raws, n) == raws.take(n).filter_map(pick),
    decreases n,
{
    if n > 0 {
        lemma_items_picked(s, raws, n - 1, pick);
        assert(raws.take(n).drop_last() =~= raws.take(n - 1));
        assert(raws.take(n).last() == raws[n - 1]);
        assert(pick(raws[n - 1]) == item_of(s, raws[n - 1]));
        assert(items_of(s, raws, n) =~= raws.take(n).filter_map(pick));
    }
}

/// What is sent tells a client every highlighted span and no other, each as often
/// as it was classified, in the order they start.
pub proof fn law_a_client_reads_every_span(
    s: Seq<char>,
    raws: Seq<Raw>,
    sent: Seq<SemanticToken>,
)
    requires
        encodes(s, raws, sent),
    ensures
        decoded(sent, sent.len() as int).to_multiset() == items_of(
            s,
            raws,
            raws.len() as int,
        ).to_multiset(),
        forall|i: int, j: int|
            #![trigger decoded(sent, sent.len() as int)[i], decoded(sent, sent.len() as int)[j]]
            0 <= i < j < sent.len() ==> ({
                let read = decoded(sent, sent.len() as int);
                read[i].line < read[j].line || (read[i].line == read[j].line && read[i].start
                    <= read[j].start)
            }),
{
    let input = items_of(s, raws, raws.len() as int);
    let items = choose|x: Seq<Item>| #[trigger] stably_sorted(input, x) && sent == deltas(x);
    law_decoding_gives_back_the_items(items);
    law_sorting_keeps_every_item(input, items);
    assert forall|i: int, j: int|
        #![trigger decoded(sent, sent.len() as int)[i], decoded(sent, sent.len() as int)[j]]
        0 <= i < j < sent.len() implies ({
        let read = decoded(sent, sent.len() as int);
        read[i].line < read[j].line || (read[i].line == read[j].line && read[i].start
            <= read[j].start)
    }) by {
        assert(items[i].starts_by(items[j]));
    }
}

/// Whether no token reaches into a span.
pub open spec fn untouched(tokens: Seq<Token>, span: Raw) -> bool {
    forall|t: int|
        0 <= t < tokens.len() ==> (#[trigger] tokens[t]).span.hi <= span.lo || tokens[t].span.lo
            >= span.hi
}

/// A comment is listed whole: what comes in the list behind a comment that no token
/// reaches into starts on a later line, past the comment's end.
pub proof fn law_comments_do_not_overlap(tokens: Seq<Token>, bytes: Seq<u8>, c: int, d: int)
    requires
        bytes.len() <= u32::MAX,
        forall|t: int|
            0 <= t < tokens.len() ==> (#[trigger] tokens[t]).span.lo <= tokens[t].span.hi,
        0 <= c < d < comments_of(tokens, bytes).len(),
        untouched(tokens, comments_of(tokens, bytes)[c]),
    ensures
        comments_of(tokens, bytes)[c].hi < comments_of(tokens, bytes)[d].lo,
{
    let n = tokens.len() as int;
    let before = comments_before(tokens, bytes, n);
    let end = bytes.len() as int;
    if d < before.len() {
        lemma_comments_before_apart(tokens, bytes, n, c, d);
    } else {
        lemma_reach_grows(tokens, n);
        lemma_gap_comments(bytes, reach(tokens, n), end, d - before.len());
        if c < before.len() {
            lemma_comments_before_clear(tokens, bytes, n, c);
            lemma_comments_before_end(tokens, bytes, n, c);
        } else {
            lemma_gap_apart(bytes, reach(tokens, n), end, c - before.len(), d - before.len());
        }
    }
}

proof fn lemma_gap_apart(bytes: Seq<u8>, p: int, hi: int, c: int, d: int)
    requires
        0 <= p,
        hi <= bytes.len() <= u32::MAX,
        0 <= c < d < gap_comments(bytes, p, hi).len(),
    ensures
        gap_comments(bytes, p, hi)[c].hi < gap_comments(bytes, p, hi)[d].lo,
    decreases bytes.len() + 2 - p,
{
    if slashes_at(bytes, p) {
        lemma_line_end(bytes, p);
        let next = line_end(bytes, p) + 1;
        lemma_gap_comments(bytes, next, hi, d - 1);
        if c > 0 {
            lemma_gap_apart(bytes, next, hi, c - 1, d - 1);
        }
    } else {
        lemma_gap_apart(bytes, p + 1, hi, c, d);
    }
}

/// A comment ends at a line break or with the text.
proof fn lemma_comments_before_end(tokens: Seq<Token>, bytes: Seq<u8>, n: int, c: int)
    requires
        bytes.len() <= u32::MAX,
        0 <= n <= tokens.len(),
        0 <= c < comments_before(tokens, bytes, n).len(),
    ensures
        ({
            let end = comments_before(tokens, bytes, n)[c].hi;
            end >= bytes.len() || bytes[end as int] != SLASH
        }),
    decreases n,
{
    let before = comments_before(tokens, bytes, n - 1);
    if c < before.len() {
        lemma_comments_before_end(tokens, bytes, n - 1, c);
    } else {
        lemma_reach_grows(tokens, n - 1);
        let p = reach(tokens, n - 1);
        let hi = gap_end(tokens, bytes, n - 1);
        lemma_gap_comments(bytes, p, hi, c - before.len());
        lemma_line_end(bytes, gap_comments(bytes, p, hi)[c - before.len()].lo as int);
    }
}

/// A comment that no token reaches into ends by where the tokens behind it reach.
proof fn lemma_comments_before_clear(tokens: Seq<Token>, bytes: Seq<u8>, n: int, c: int)
    requires
        bytes.len() <= u32::MAX,
        forall|t: int|
            0 <= t < tokens.len() ==> (#[trigger] tokens[t]).span.lo <= tokens[t].span.hi,
        0 <= n <= tokens.len(),
        0 <= c < comments_before(tokens, bytes, n).len(),
        untouched(tokens, comments_before(tokens, bytes, n)[c]),
    ensures
        comments_before(tokens, bytes, n)[c].hi <= reach(tokens, n),
    decreases n,
{
    let before = comments_before(tokens, bytes, n - 1);
    if c < before.len() {
        assert(before[c] == comments_before(tokens, bytes, n)[c]);
        lemma_comments_before_clear(tokens, bytes, n - 1, c);
    } else {
        lemma_reach_grows(tokens, n - 1);
        let p = reach(tokens, n - 1);
        let hi = gap_end(tokens, bytes, n - 1);
        lemma_gap_comments(bytes, p, hi, c - before.len());
        assert(tokens[n - 1].span.lo <= tokens[n - 1].span.hi);
    }
}

proof fn lemma_comments_before_apart(tokens: Seq<Token>, bytes: Seq<u8>, n: int, c: int, d: int)
    requires
        bytes.len() <= u32::MAX,
        forall|t: int|
            0 <= t < tokens.len() ==> (#[trigger] tokens[t]).span.lo <= tokens[t].span.hi,
        0 <= n <= tokens.len(),
        0 <= c < d < comments_before(tokens, bytes, n).len(),
        untouched(tokens, comments_before(tokens, bytes, n)[c]),
    ensures
        comments_before(tokens, bytes, n)[c].hi < comments_before(tokens, bytes, n)[d].lo,
    decreases n,
{
    let before = comments_before(tokens, bytes, n - 1);
    let p = reach(tokens, n - 1);
    let hi = gap_end(tokens, bytes, n - 1);
    lemma_reach_grows(tokens, n - 1);
    if d < before.len() {
        assert(before[c] == comments_before(tokens, bytes, n)[c]);
        lemma_comments_before_apart(tokens, bytes, n - 1, c, d);
    } else if c < before.len() {
        assert(before[c] == comments_before(tokens, bytes, n)[c]);
        lemma_comments_before_clear(tokens, bytes, n - 1, c);
        lemma_comments_before_end(tokens, bytes, n - 1, c);
        lemma_gap_comments(bytes, p, hi, d - before.len());
    } else {
        lemma_gap_apart(bytes, p, hi, c - before.len(), d - before.len());
    }
}

} // verus!
