//! Whole documents: the guard, highlighting, navigation, diagnostics, the
//! workspace and the server, on tokens a small lexer makes.

use vesper::compiler::analyze::{
    needs_parse, syntax_of, Diag, FileSrc, Program, SemanticStep, SyntaxStep,
};
use vesper::compiler::ast::{
    Enum, Field, Foreign, ForeignFunc, Func, Impl, Interface, Item, MethodSig, Module, Param,
    Struct, Type, Variant,
};
use vesper::compiler::guard::{check, stop, TooComplex};
use vesper::compiler::symbols::{tail, Syntax};
use vesper::compiler::token::{Keyword, Span, Token, TokenKind};
use vesper::compiler::tokens::{scan_gap, type_index, Raw, Sem, DECL, DEFLIB};
use vesper::compiler::{
    definition, document_symbols, hover, identifiers, legend, name_at, semantic_diagnostics,
    semantic_tokens, syntax_diagnostics, FileDiagnostics, Symbol,
};
use vesper::position::LineIndex;
use vesper::protocol::{Diagnostic, DiagnosticSeverity, Location, Position, Range, SymbolKind};
use vesper::config::Config;
use vesper::server::{
    document_symbol, goto_definition, initialize, own_diagnostics, TextDocumentSyncKind,
};
use vesper::store::Store;
use vesper::workspace::{answers_to, Workspace};
use vesper::Backend;

fn keyword(word: &str) -> Option<Keyword> {
    match word {
        "func" => Some(Keyword::Func),
        "struct" => Some(Keyword::Struct),
        "enum" => Some(Keyword::Enum),
        "interface" => Some(Keyword::Interface),
        "monad" => Some(Keyword::Monad),
        "impl" => Some(Keyword::Impl),
        "return" | "let" | "if" | "foreign" | "async" | "using" => Some(Keyword::Other),
        _ => None,
    }
}

/// Splits a source into tokens, as far as these tests need.
fn lex(src: &str) -> Vec<Token> {
    let bytes = src.as_bytes();
    let mut out = Vec::new();
    let mut i = 0;
    let mut nl = false;
    while i < bytes.len() {
        let c = bytes[i];
        if c == b'\n' {
            nl = true;
            i += 1;
            continue;
        }
        if c == b' ' || c == b'\t' || c == b'\r' {
            i += 1;
            continue;
        }
        if src[i..].starts_with("//") {
            while i < bytes.len() && bytes[i] != b'\n' {
                i += 1;
            }
            continue;
        }
        let lo = i;
        let kind = if c.is_ascii_alphabetic() || c == b'_' {
            while i < bytes.len() && (bytes[i].is_ascii_alphanumeric() || bytes[i] == b'_') {
                i += 1;
            }
            let word = &src[lo..i];
            if word == "true" || word == "false" {
                TokenKind::Bool
            } else {
                match keyword(word) {
                    Some(kw) => TokenKind::Kw(kw),
                    None => TokenKind::Ident(word.to_string()),
                }
            }
        } else if c.is_ascii_digit() {
            let mut float = false;
            while i < bytes.len() && (bytes[i].is_ascii_digit() || bytes[i] == b'.') {
                float = float || bytes[i] == b'.';
                i += 1;
            }
            if float { TokenKind::Float } else { TokenKind::Int }
        } else if c == b'"' || c == b'\'' {
            i += 1;
            while i < bytes.len() && bytes[i] != c {
                i += 1;
            }
            i += 1;
            if c == b'"' { TokenKind::Str } else { TokenKind::Char }
        } else if c == b'-' && i + 1 < bytes.len() && bytes[i + 1] == b'>' {
            i += 2;
            TokenKind::Arrow
        } else if c == b'>' && i + 1 < bytes.len() && bytes[i + 1] == b'>' {
            i += 2;
            TokenKind::Shr
        } else {
            i += 1;
            match c {
                b'@' => TokenKind::At,
                b'(' => TokenKind::LParen,
                b')' => TokenKind::RParen,
                b'[' => TokenKind::LBracket,
                b']' => TokenKind::RBracket,
                b'{' => TokenKind::LBrace,
                b'}' => TokenKind::RBrace,
                b'<' => TokenKind::Lt,
                b'>' => TokenKind::Gt,
                b',' => TokenKind::Comma,
                _ => TokenKind::Other,
            }
        };
        out.push(Token { kind, span: Span { lo: lo as u32, hi: i as u32 }, nl_before: nl });
        nl = false;
    }
    out
}

fn named(name: &str) -> Type {
    Type::Named(name.to_string(), Vec::new())
}

fn param(name: &str, ty: Type) -> Param {
    Param { name: name.to_string(), ty, using: false }
}

fn func(name: &str, params: Vec<Param>, ret: Type) -> Func {
    Func { name: name.to_string(), is_async: false, generics: Vec::new(), params, ret }
}

fn field(name: &str, ty: Type) -> Field {
    Field { name: name.to_string(), ty }
}

fn module(items: Vec<Item>) -> Module {
    Module { monads: Vec::new(), items }
}

fn syntax(src: &str, items: Vec<Item>) -> Syntax {
    Syntax { tokens: lex(src), module: module(items) }
}

fn span(lo: u32, hi: u32) -> Span {
    Span { lo, hi }
}

fn diag(lo: u32, hi: u32, msg: &str) -> Diag {
    Diag { span: span(lo, hi), msg: msg.to_string() }
}

fn at(line: u32, character: u32) -> Position {
    Position::new(line, character)
}

// The guard.

#[test]
fn a_normal_program_passes() {
    let src = "@paradigm procedural\nfunc main() -> int32 {\n    return 0\n}\n";
    assert!(check(&lex(src)).is_none());
}

#[test]
fn a_deeply_nested_expression_is_held_back() {
    let deep = format!(
        "func main() -> int32 {{\n    return {}0{}\n}}\n",
        "(".repeat(2000),
        ")".repeat(2000)
    );
    let hit = check(&lex(&deep));
    assert_eq!(hit.map(|(k, _)| k), Some(TooComplex::NestingTooDeep));
}

#[test]
fn a_very_long_line_is_held_back() {
    // A postfix chain that never overflows a bracket, but runs the parser
    // deep on one line, is caught by the token count instead.
    let chain = format!("func main() -> int32 {{\n    return x{}\n}}\n", ".f".repeat(5000));
    let hit = check(&lex(&chain));
    assert_eq!(hit.map(|(k, _)| k), Some(TooComplex::LineTooLong));
}

#[test]
fn nesting_that_closes_does_not_accumulate() {
    // Shallow nesting repeated across many short lines stays under the depth
    // cap, since each line's brackets close before the next.
    let mut src = String::from("@paradigm procedural\n");
    for _ in 0..1000 {
        src.push_str("func f() -> int32 {\n    return (1 + 2)\n}\n");
    }
    assert!(check(&lex(&src)).is_none());
}

#[test]
fn the_limits_are_exact() {
    // The brace and 511 parens make 512 levels, one more breaks.
    let within = format!("{{\n{}", "(\n".repeat(511));
    assert_eq!(check(&lex(&within)), None);
    let past = format!("{{\n{}", "(\n".repeat(512));
    assert_eq!(check(&lex(&past)), Some((TooComplex::NestingTooDeep, 2 + 511 * 2)));
    let line = "x ".repeat(4096);
    assert_eq!(check(&lex(&line)), None);
    let longer = "x ".repeat(4097);
    assert_eq!(check(&lex(&longer)), Some((TooComplex::LineTooLong, 8192)));
    assert_eq!(check(&lex(&format!("{line}\n{line}"))), None);
}

#[test]
fn a_stray_closing_bracket_closes_nothing() {
    let src = format!("{}{}", ")\n".repeat(600), "(\n".repeat(512));
    assert_eq!(check(&lex(&src)), None);
    let past = format!("{}{}", ")\n".repeat(600), "(\n".repeat(513));
    assert_eq!(check(&lex(&past)), Some((TooComplex::NestingTooDeep, 1200 + 1024)));
}

#[test]
fn each_reason_says_why() {
    assert_eq!(
        TooComplex::LineTooLong.reason(),
        "vesper skipped analysis here: this line holds too many tokens for the dusk parser to descend safely"
    );
    assert_eq!(
        TooComplex::NestingTooDeep.reason(),
        "vesper skipped analysis here: this nests too deeply for the dusk parser to descend safely"
    );
}

// Highlighting.

/// Rebuilds absolute (line, char, len, type, mods) tuples from the delta encoded
/// stream, so a test can look for a role at a position.
fn decoded(text: &str) -> Vec<(u32, u32, u32, u32, u32)> {
    let mut out = Vec::new();
    let (mut line, mut start) = (0u32, 0u32);
    for t in semantic_tokens(text, &lex(text)) {
        if t.delta_line != 0 {
            line += t.delta_line;
            start = t.delta_start;
        } else {
            start += t.delta_start;
        }
        out.push((line, start, t.length, t.token_type, t.token_modifiers_bitset));
    }
    out
}

/// Pairs each token with the source text it covers, for tests that look a role up
/// by name. The inputs here are ASCII, so a character column equals a UTF-16 unit.
fn roled(text: &str) -> Vec<(u32, String)> {
    let lines: Vec<&str> = text.split('\n').collect();
    let mut out = Vec::new();
    let (mut line, mut start) = (0u32, 0u32);
    for t in semantic_tokens(text, &lex(text)) {
        if t.delta_line != 0 {
            line += t.delta_line;
            start = t.delta_start;
        } else {
            start += t.delta_start;
        }
        let slice: String = lines[line as usize]
            .chars()
            .skip(start as usize)
            .take(t.length as usize)
            .collect();
        out.push((t.token_type, slice));
    }
    out
}

#[test]
fn colors_a_function_declaration() {
    let text = "func main() -> int32 {\n    return 0\n}\n";
    let d = decoded(text);
    // `func` is a keyword at the start of line 0.
    assert!(d.iter().any(|t| t.0 == 0 && t.1 == 0 && t.3 == type_index(Sem::Keyword)));
    // `main` is a function declaration at column 5.
    assert!(d
        .iter()
        .any(|t| t.0 == 0 && t.1 == 5 && t.3 == type_index(Sem::Function) && t.4 & DECL != 0));
    // `int32` is a builtin type.
    assert!(d.iter().any(|t| t.3 == type_index(Sem::Type) && t.4 & DEFLIB != 0));
}

#[test]
fn colors_a_call_as_a_function() {
    let text = "func main() -> int32 {\n    work()\n    return 0\n}\n";
    let d = decoded(text);
    // `work` on line 1 is followed by `(`, so it is a function.
    assert!(d.iter().any(|t| t.0 == 1 && t.3 == type_index(Sem::Function) && t.4 == 0));
}

#[test]
fn colors_a_directive_name_as_a_macro() {
    let text = "@paradigm procedural\nfunc main() -> int32 {\n    return 0\n}\n";
    let d = decoded(text);
    assert!(d.iter().any(|t| t.0 == 0 && t.3 == type_index(Sem::Macro)));
}

#[test]
fn colors_a_comment() {
    let text = "func f() -> void {\n    // hi\n}\n";
    let d = decoded(text);
    assert!(d.iter().any(|t| t.3 == type_index(Sem::Comment)));
}

#[test]
fn a_parameter_after_a_function_type_parameter_is_not_a_type() {
    // The inner `->` opens a type, but the comma that ends the first parameter
    // must close it, so the second parameter name stays a variable.
    let text = "func apply(f: (int32) -> int32, x: int32) -> void {\n}\n";
    let toks = roled(text);
    let x = toks.iter().find(|(_, s)| s == "x").expect("x is present");
    assert_eq!(x.0, type_index(Sem::Variable), "x is a parameter, not a type");
}

#[test]
fn a_generic_return_type_argument_stays_a_type() {
    // The comma here sits inside the angle brackets, so the type stays open
    // and the second argument is still a type.
    let text = "func f() -> Map<K, V> {\n}\n";
    let toks = roled(text);
    let v = toks.iter().find(|(_, s)| s == "V").expect("V is present");
    assert_eq!(v.0, type_index(Sem::Type), "V is a type argument");
}

#[test]
fn does_not_treat_a_slash_in_a_string_as_a_comment() {
    let text = "func f() -> void {\n    let s = \"http://x\"\n}\n";
    let d = decoded(text);
    assert!(
        !d.iter().any(|t| t.3 == type_index(Sem::Comment)),
        "a slash inside a string is not a comment"
    );
    assert!(d.iter().any(|t| t.3 == type_index(Sem::String)));
}

#[test]
fn a_small_program_is_colored_exactly() {
    let text = "func f(x: T) -> U { // é\n  return g(x, 1.5, 'c', true)\n}";
    let kw = type_index(Sem::Keyword);
    assert_eq!(
        decoded(text),
        vec![
            (0, 0, 4, kw, 0),
            (0, 5, 1, type_index(Sem::Function), DECL),
            (0, 7, 1, type_index(Sem::Variable), 0),
            (0, 10, 1, type_index(Sem::Variable), 0),
            (0, 16, 1, type_index(Sem::Type), 0),
            (0, 20, 4, type_index(Sem::Comment), 0),
            (1, 2, 6, kw, 0),
            (1, 9, 1, type_index(Sem::Function), 0),
            (1, 11, 1, type_index(Sem::Variable), 0),
            (1, 14, 3, type_index(Sem::Number), 0),
            (1, 19, 3, type_index(Sem::String), 0),
            (1, 24, 4, kw, 0),
        ]
    );
}

#[test]
fn each_declaration_keyword_gives_its_role() {
    for (text, sem) in [
        ("func f", Sem::Function),
        ("struct f", Sem::Struct),
        ("enum f", Sem::Enum),
        ("interface f", Sem::Interface),
        ("monad f", Sem::Type),
    ] {
        let d = decoded(text);
        assert_eq!((d[1].3, d[1].4), (type_index(sem), DECL), "{text}");
    }
    // The head of an impl is a type position, not a declaration.
    let d = decoded("impl Show");
    assert_eq!((d[1].3, d[1].4), (type_index(Sem::Type), 0));
}

#[test]
fn a_type_position_ends_where_it_should() {
    let role = |text: &str, name: &str| {
        roled(text).iter().find(|(_, s)| s == name).expect("name is present").0
    };
    let (ty, var) = (type_index(Sem::Type), type_index(Sem::Variable));
    // A line break ends it.
    assert_eq!(role("-> A\nB", "B"), var);
    // The body's brace ends it.
    assert_eq!(role("-> A { B", "B"), var);
    // The paren that closes outside it ends it.
    assert_eq!(role("(f -> A) B", "B"), var);
    // A tuple type's comma does not end it.
    assert_eq!(role("-> (A, B)", "B"), ty);
    // Nested generics close together.
    assert_eq!(role("-> M<A, N<B>>, C", "C"), var);
    assert_eq!(role("-> M<A, N<B>, C>", "C"), ty);
}

#[test]
fn comments_come_from_the_gaps() {
    let text = "// a\r\nx // b // c\n//";
    let d = decoded(text);
    assert_eq!(
        d,
        vec![
            (0, 0, 4, type_index(Sem::Comment), 0),
            (1, 0, 1, type_index(Sem::Variable), 0),
            (1, 2, 9, type_index(Sem::Comment), 0),
            (2, 0, 2, type_index(Sem::Comment), 0),
        ]
    );
}

#[test]
fn a_gap_is_scanned_between_its_bounds() {
    let text = "ab// c\n/ / // d";
    let mut out = Vec::new();
    scan_gap(text, 0, text.len(), &mut out);
    let comment = |lo: u32, hi: u32| Raw { lo, hi, sem: Sem::Comment, mods: 0 };
    assert_eq!(out, vec![comment(2, 6), comment(11, 15)]);
    let mut early = Vec::new();
    scan_gap(text, 0, 3, &mut early);
    assert_eq!(early, vec![]);
    let mut past = Vec::new();
    scan_gap(text, 4, 400, &mut past);
    assert_eq!(past, vec![comment(11, 15)]);
}

#[test]
fn a_token_over_a_line_break_is_dropped() {
    let text = "\"a\nb\" c";
    let toks = vec![
        Token { kind: TokenKind::Str, span: span(0, 5), nl_before: false },
        Token { kind: TokenKind::Ident("c".to_string()), span: span(6, 7), nl_before: false },
    ];
    let sent = semantic_tokens(text, &toks);
    assert_eq!(sent.len(), 1);
    assert_eq!((sent[0].delta_line, sent[0].delta_start, sent[0].length), (1, 3, 1));
}

#[test]
fn the_legend_names_every_role_in_order() {
    let l = legend();
    assert_eq!(
        l.token_types,
        vec![
            "keyword", "function", "type", "struct", "enum", "interface", "number", "string",
            "comment", "variable", "macro"
        ]
    );
    assert_eq!(l.token_modifiers, vec!["declaration", "defaultLibrary"]);
    assert_eq!(l.token_types[type_index(Sem::Macro) as usize], "macro");
    assert_eq!(l.token_types[type_index(Sem::Comment) as usize], "comment");
}

// Navigation.

const SRC: &str = "@paradigm procedural\n\
struct Point { x: int64, y: int64 }\n\
\n\
func dist(a: Point, b: Point) -> int64 {\n\
    return 0\n\
}\n\
\n\
func main() -> int32 {\n\
    d := dist(a, b)\n\
    return 0\n\
}\n";

fn src_syntax() -> Syntax {
    syntax(
        SRC,
        vec![
            Item::Struct(Struct {
                name: "Point".to_string(),
                generics: Vec::new(),
                fields: vec![field("x", named("int64")), field("y", named("int64"))],
            }),
            Item::Func(func(
                "dist",
                vec![param("a", named("Point")), param("b", named("Point"))],
                named("int64"),
            )),
            Item::Func(func("main", Vec::new(), named("int32"))),
        ],
    )
}

fn offset_of(sub: &str) -> u32 {
    SRC.find(sub).expect("substring present") as u32
}

#[test]
fn lists_the_documents_declarations() {
    let syms = document_symbols(SRC, &src_syntax());
    let names: Vec<&str> = syms.iter().map(|s| s.name.as_str()).collect();
    assert!(names.contains(&"Point"));
    assert!(names.contains(&"dist"));
    assert!(names.contains(&"main"));
}

#[test]
fn hovers_a_function_with_its_signature() {
    // Hover over the call to dist on the line inside main.
    let pos = LineIndex::new(SRC).position(SRC, offset_of("dist(a, b)"));
    let h = hover(SRC, pos, &src_syntax()).expect("hover over a call resolves");
    let text = h.value;
    assert!(text.contains("func dist(a: Point, b: Point) -> int64"), "{text}");
}

#[test]
fn hovers_a_builtin_type() {
    let pos = LineIndex::new(SRC).position(SRC, offset_of("int32"));
    let h = hover(SRC, pos, &src_syntax()).expect("hover over a builtin type resolves");
    let text = h.value;
    assert!(text.contains("builtin type"), "{text}");
}

#[test]
fn goes_from_a_call_to_the_definition() {
    let index = LineIndex::new(SRC);
    // The call site of dist inside main.
    let call = index.position(SRC, offset_of("dist(a, b)"));
    // The definition's name, in `func dist(...)`.
    let def = index.position(SRC, offset_of("dist(a: Point"));
    let range = definition(SRC, call, &src_syntax()).expect("definition resolves");
    assert_eq!(range.start, def, "jumps to the dist declaration name");
}

fn detail_of(src: &str, items: Vec<Item>, name: &str) -> String {
    document_symbols(src, &syntax(src, items))
        .into_iter()
        .find(|s| s.name == name)
        .unwrap_or_else(|| panic!("{name} present"))
        .detail
}

#[test]
fn renders_a_slice_type_with_a_postfix_suffix() {
    let f = func("f", vec![param("xs", Type::Slice(Box::new(named("int32"))))], Type::Unit);
    let d = detail_of("func f(xs: int32[]) -> void {\n}\n", vec![Item::Func(f)], "f");
    assert!(d.contains("xs: int32[]"), "{d}");
}

#[test]
fn renders_a_using_parameter_with_its_marker() {
    let a = Param { name: "a".to_string(), ty: named("int32"), using: true };
    let g = func("g", vec![a], Type::Unit);
    let d = detail_of("func g(using a: int32) -> void {\n}\n", vec![Item::Func(g)], "g");
    assert!(d.contains("using a: int32"), "{d}");
}

#[test]
fn renders_named_enum_variant_fields() {
    let shape = Enum {
        name: "Shape".to_string(),
        generics: Vec::new(),
        variants: vec![
            Variant { name: "Circle".to_string(), fields: vec![field("radius", named("float64"))] },
            Variant { name: "Empty".to_string(), fields: Vec::new() },
        ],
    };
    let d = detail_of(
        "enum Shape { Circle(radius: float64), Empty }\n",
        vec![Item::Enum(shape)],
        "Shape",
    );
    assert!(d.contains("Circle(radius: float64)"), "{d}");
}

#[test]
fn two_declarations_of_a_name_keep_their_own_signatures() {
    let src = "func foo() -> int32 {\n    return 0\n}\n\
               func foo() -> int64 {\n    return 1\n}\n";
    let items = vec![
        Item::Func(func("foo", Vec::new(), named("int32"))),
        Item::Func(func("foo", Vec::new(), named("int64"))),
    ];
    let details: Vec<String> = document_symbols(src, &syntax(src, items))
        .into_iter()
        .filter(|s| s.name == "foo")
        .map(|s| s.detail)
        .collect();
    assert_eq!(details.len(), 2, "{details:?}");
    assert!(details.iter().any(|d| d.contains("-> int32")), "{details:?}");
    assert!(details.iter().any(|d| d.contains("-> int64")), "{details:?}");
    assert_eq!(details, vec!["func foo() -> int32", "func foo() -> int64"]);
}

#[test]
fn symbols_are_listed_exactly_and_in_order() {
    let syms = document_symbols(SRC, &src_syntax());
    let want = |name: &str, kind, detail: &str, line, lo, hi| Symbol {
        name: name.to_string(),
        kind,
        detail: detail.to_string(),
        name_range: Range::new(at(line, lo), at(line, hi)),
    };
    assert_eq!(
        syms,
        vec![
            want("Point", SymbolKind::Struct, "struct Point { x: int64, y: int64 }", 1, 7, 12),
            want(
                "dist",
                SymbolKind::Function,
                "func dist(a: Point, b: Point) -> int64",
                3,
                5,
                9
            ),
            want("main", SymbolKind::Function, "func main() -> int32", 7, 5, 9),
        ]
    );
}

#[test]
fn a_declaration_without_a_signature_shows_a_header() {
    for (src, want) in [
        ("func f", "func f"),
        ("struct f", "struct f"),
        ("enum f", "enum f"),
        ("interface f", "interface f"),
        ("monad f", "monad f"),
    ] {
        assert_eq!(detail_of(src, Vec::new(), "f"), want);
    }
    // The third declaration of a name with two signatures has none left.
    let src = "func f() func f() func f()";
    let items = vec![
        Item::Func(func("f", Vec::new(), named("A"))),
        Item::Func(func("f", Vec::new(), named("B"))),
    ];
    let details: Vec<String> =
        document_symbols(src, &syntax(src, items)).into_iter().map(|s| s.detail).collect();
    assert_eq!(details, vec!["func f() -> A", "func f() -> B", "func f"]);
}

#[test]
fn methods_are_filed_under_their_own_segment() {
    let src = "monad Opt { func bind() }\nimpl Show for A { func show() }\nforeign { func puts() }";
    let syn = Syntax {
        tokens: lex(src),
        module: Module {
            monads: vec!["Opt".to_string()],
            items: vec![
                Item::Func(func("Opt.bind", Vec::new(), named("A"))),
                Item::Impl(Impl { methods: vec![func("show", Vec::new(), named("string"))] }),
                Item::Foreign(Foreign {
                    funcs: vec![ForeignFunc {
                        name: "puts".to_string(),
                        params: vec![param("s", Type::RawPtr(Box::new(named("char"))))],
                        ret: named("int32"),
                    }],
                }),
            ],
        },
    };
    let got: Vec<(String, SymbolKind, String)> =
        document_symbols(src, &syn).into_iter().map(|s| (s.name, s.kind, s.detail)).collect();
    let want = |n: &str, k, d: &str| (n.to_string(), k, d.to_string());
    assert_eq!(
        got,
        vec![
            want("Opt", SymbolKind::Namespace, "monad Opt"),
            want("bind", SymbolKind::Function, "func Opt.bind() -> A"),
            want("show", SymbolKind::Function, "func show() -> string"),
            want("puts", SymbolKind::Function, "func puts(s: *raw char) -> int32"),
        ]
    );
}

#[test]
fn a_function_and_a_monad_that_share_a_name_keep_their_own() {
    let show = |src: &str| -> Vec<(SymbolKind, String)> {
        let syn = Syntax {
            tokens: lex(src),
            module: Module {
                monads: vec!["M".to_string()],
                items: vec![Item::Func(func("M", Vec::new(), named("int32")))],
            },
        };
        document_symbols(src, &syn).into_iter().map(|s| (s.kind, s.detail)).collect()
    };
    let function = (SymbolKind::Function, "func M() -> int32".to_string());
    let monad = (SymbolKind::Namespace, "monad M".to_string());
    assert_eq!(
        show("func M() -> int32 { }\nmonad M { }"),
        vec![(function.0, function.1.clone()), (monad.0, monad.1.clone())]
    );
    assert_eq!(show("monad M { }\nfunc M() -> int32 { }"), vec![monad, function]);
}

#[test]
fn a_declaration_the_tree_lost_borrows_no_signature() {
    // Only the function parsed, so the struct has a bare header to show.
    let src = "struct M {\nfunc M() -> int32 { }";
    let items = vec![Item::Func(func("M", Vec::new(), named("int32")))];
    let details: Vec<String> =
        document_symbols(src, &syntax(src, items)).into_iter().map(|s| s.detail).collect();
    assert_eq!(details, vec!["struct M", "func M() -> int32"]);
}

#[test]
fn a_definition_is_its_own_definition() {
    let syn = src_syntax();
    let def = Range::new(at(3, 5), at(3, 9));
    assert_eq!(definition(SRC, def.start, &syn), Some(def));
    // Every mention of the name leads there.
    for (name, range) in identifiers(SRC, &syn.tokens) {
        if name == "dist" {
            assert_eq!(definition(SRC, range.start, &syn), Some(def));
            assert_eq!(definition(SRC, range.end, &syn), Some(def));
        }
    }
}

#[test]
fn an_interface_lists_its_methods() {
    let i = Interface {
        name: "Show".to_string(),
        generics: vec!["T".to_string()],
        methods: vec![
            MethodSig { name: "show".to_string(), params: Vec::new(), ret: named("string") },
            MethodSig {
                name: "eq".to_string(),
                params: vec![param("o", named("T"))],
                ret: named("bool"),
            },
        ],
    };
    assert_eq!(
        detail_of("interface Show<T> { }", vec![Item::Interface(i)], "Show"),
        "interface Show<T> { show() -> string; eq(o: T) -> bool }"
    );
}

#[test]
fn the_last_segment_follows_the_last_dot() {
    assert_eq!(tail("bind"), "bind");
    assert_eq!(tail("Opt.bind"), "bind");
    assert_eq!(tail("a.b.é"), "é");
    assert_eq!(tail("a."), "");
    assert_eq!(tail(""), "");
}

#[test]
fn a_cursor_at_either_end_lands_on_the_name() {
    let syn = src_syntax();
    for character in [5, 7, 9] {
        let h = hover(SRC, at(3, character), &syn).expect("on dist");
        assert_eq!(h.value, "```dusk\nfunc dist(a: Point, b: Point) -> int64\n```");
        assert_eq!(h.range, Range::new(at(3, 5), at(3, 9)));
        assert_eq!(name_at(SRC, at(3, character), &syn.tokens).as_deref(), Some("dist"));
        assert_eq!(
            definition(SRC, at(3, character), &syn),
            Some(Range::new(at(3, 5), at(3, 9)))
        );
    }
    // The space before the name touches nothing else.
    assert_eq!(hover(SRC, at(3, 4), &syn), None);
    assert_eq!(name_at(SRC, at(3, 4), &syn.tokens), None);
}

#[test]
fn a_local_has_nothing_to_show() {
    let syn = src_syntax();
    // The `d` in `d := dist(a, b)`.
    let pos = LineIndex::new(SRC).position(SRC, offset_of("d := "));
    assert_eq!(name_at(SRC, pos, &syn.tokens).as_deref(), Some("d"));
    assert_eq!(hover(SRC, pos, &syn), None);
    assert_eq!(definition(SRC, pos, &syn), None);
}

#[test]
fn a_builtin_type_is_shown_but_defined_nowhere() {
    let syn = src_syntax();
    let pos = LineIndex::new(SRC).position(SRC, offset_of("int32"));
    assert_eq!(
        hover(SRC, pos, &syn).map(|h| h.value).as_deref(),
        Some("```dusk\nint32\n\nbuiltin type\n```")
    );
    assert_eq!(definition(SRC, pos, &syn), None);
}

#[test]
fn every_declaration_is_among_the_identifiers() {
    let syn = src_syntax();
    let idents = identifiers(SRC, &syn.tokens);
    assert_eq!(idents.len(), 19);
    assert_eq!(idents[0], ("paradigm".to_string(), Range::new(at(0, 1), at(0, 9))));
    for s in document_symbols(SRC, &syn) {
        assert!(idents.contains(&(s.name, s.name_range)));
    }
}

#[test]
fn the_outline_shows_each_symbol() {
    let out = document_symbol(SRC, &src_syntax());
    assert_eq!(out.len(), 3);
    assert_eq!(out[0].name, "Point");
    assert_eq!(out[0].kind, SymbolKind::Struct);
    assert_eq!(out[0].detail.as_deref(), Some("struct Point { x: int64, y: int64 }"));
    assert_eq!(out[0].range, Range::new(at(1, 7), at(1, 12)));
    assert_eq!(out[0].selection_range, out[0].range);
}

#[test]
fn a_definition_is_a_place_in_its_own_document() {
    let syn = src_syntax();
    let call = LineIndex::new(SRC).position(SRC, offset_of("dist(a, b)"));
    let found = goto_definition("file:///m.dusk".to_string(), SRC, call, &syn);
    assert_eq!(
        found,
        Some(Location::new("file:///m.dusk".to_string(), Range::new(at(3, 5), at(3, 9))))
    );
    assert_eq!(goto_definition("file:///m.dusk".to_string(), SRC, at(2, 0), &syn), None);
}

// Diagnostics.

/// Runs the syntax steps to their end, with what the parser and the paradigm gate
/// would report.
fn syntax_result(src: &str, lex_errs: &[Diag], parse: &Vec<Diag>, gate: &Vec<Diag>) -> Vec<Diagnostic> {
    let tokens = lex(src);
    let mut parsed = None;
    let mut gated = None;
    loop {
        match syntax_diagnostics(src, &tokens, lex_errs, parsed, gated) {
            SyntaxStep::Parse => {
                assert!(parsed.is_none(), "parsed twice");
                parsed = Some(parse);
            }
            SyntaxStep::Gate => {
                assert!(gated.is_none(), "gated twice");
                gated = Some(gate);
            }
            SyntaxStep::Publish(out) => return out,
        }
    }
}

fn error(message: &str, start: Position, end: Position) -> Diagnostic {
    Diagnostic {
        range: Range::new(start, end),
        severity: Some(DiagnosticSeverity::Error),
        source: Some("dusk".to_string()),
        message: message.to_string(),
    }
}

#[test]
fn a_clean_program_has_no_syntax_diagnostics() {
    let src = "@paradigm procedural\nfunc main() -> int32 {\n    return 0\n}\n";
    let out = syntax_result(src, &[], &Vec::new(), &Vec::new());
    assert!(out.is_empty(), "{:?}", out);
}

#[test]
fn a_broken_program_reports_a_syntax_diagnostic() {
    let src = "func main( -> int32 {\n}\n";
    let parse = vec![diag(11, 13, "expected a parameter")];
    let out = syntax_result(src, &[], &parse, &Vec::new());
    assert!(!out.is_empty());
    assert_eq!(out, vec![error("expected a parameter", at(0, 11), at(0, 13))]);
}

#[test]
fn a_pathologically_nested_buffer_is_guarded_not_parsed() {
    let deep = format!(
        "func main() -> int32 {{\n    return {}0{}\n}}\n",
        "(".repeat(30_000),
        ")".repeat(30_000)
    );
    // The first step already has the answer, so the parser never sees the buffer.
    let diags = match syntax_diagnostics(&deep, &lex(&deep), &[], None, None) {
        SyntaxStep::Publish(out) => out,
        other => panic!("expected the note, got {other:?}"),
    };
    assert_eq!(diags.len(), 1, "one guard note stands in for analysis");
    assert_eq!(diags[0].severity, Some(DiagnosticSeverity::Warning));
    assert_eq!(diags[0].source.as_deref(), Some("vesper"));
    assert_eq!(diags[0].message, TooComplex::NestingTooDeep.reason());
    // The body's brace is the first level, so the note sits on paren 512.
    assert_eq!(diags[0].range, Range::new(at(1, 11 + 511), at(1, 12 + 511)));
}

#[test]
fn the_guard_note_covers_the_whole_token() {
    // The token past the line's limit is three bytes long.
    let src = format!("{}abc", "x ".repeat(4096));
    let tokens = lex(&src);
    assert_eq!(check(&tokens), Some((TooComplex::LineTooLong, 8192)));
    assert_eq!(stop(&tokens), Some((TooComplex::LineTooLong, span(8192, 8195))));
    let note = Diagnostic {
        range: Range::new(at(0, 8192), at(0, 8195)),
        severity: Some(DiagnosticSeverity::Warning),
        source: Some("vesper".to_string()),
        message: TooComplex::LineTooLong.reason().to_string(),
    };
    assert_eq!(
        syntax_diagnostics(&src, &tokens, &[], None, None),
        SyntaxStep::Publish(vec![note])
    );
}

#[test]
fn a_guarded_buffer_is_outlined_without_a_parse() {
    let tree = || module(vec![Item::Func(func("f", Vec::new(), named("int32")))]);
    let src = "func f() -> int32 { }";
    assert!(needs_parse(&lex(src)));
    let shown = |syn: &Syntax, text: &str| document_symbols(text, syn)[0].detail.clone();
    assert_eq!(shown(&syntax_of(lex(src), Some(tree())), src), "func f() -> int32");
    assert_eq!(shown(&syntax_of(lex(src), None), src), "func f");
    let deep = format!("func f() {{ {}", "(".repeat(600));
    assert!(!needs_parse(&lex(&deep)));
    assert_eq!(shown(&syntax_of(lex(&deep), None), &deep), "func f");
    assert_eq!(shown(&syntax_of(lex(&deep), Some(tree())), &deep), "func f");
}

#[test]
fn a_local_that_shares_a_declared_name_shows_the_declaration() {
    let src = "func x() -> int32 { }\nfunc f(x: int64) { x }";
    let syn = syntax(src, vec![Item::Func(func("x", Vec::new(), named("int32")))]);
    assert_eq!(
        hover(src, at(1, 7), &syn).map(|h| h.value).as_deref(),
        Some("```dusk\nfunc x() -> int32\n```")
    );
}

#[test]
fn identifiers_that_touch_are_found_from_the_left() {
    // No lexer leaves two identifiers side by side; the first one wins there.
    let ident = |name: &str, lo, hi| Token {
        kind: TokenKind::Ident(name.to_string()),
        span: span(lo, hi),
        nl_before: false,
    };
    let tokens = vec![ident("a", 0, 1), ident("b", 1, 2)];
    assert_eq!(name_at("ab", at(0, 1), &tokens).as_deref(), Some("a"));
    assert_eq!(name_at("ab", at(0, 2), &tokens).as_deref(), Some("b"));
}

#[test]
fn lex_and_parse_errors_come_in_that_order() {
    let src = "ab\ncd";
    let out = syntax_result(
        src,
        &[diag(3, 5, "lex")],
        &vec![diag(0, 1, "one"), diag(1, 99, "two")],
        &vec![diag(0, 0, "never")],
    );
    assert_eq!(
        out,
        vec![
            error("lex", at(1, 0), at(1, 2)),
            error("one", at(0, 0), at(0, 1)),
            error("two", at(0, 1), at(1, 2)),
        ]
    );
}

#[test]
fn the_paradigm_is_gated_only_behind_a_clean_parse() {
    let gate = vec![diag(0, 2, "paradigm")];
    assert_eq!(
        syntax_result("ab", &[], &Vec::new(), &gate),
        vec![error("paradigm", at(0, 0), at(0, 2))]
    );
    assert_eq!(
        syntax_result("ab", &[diag(1, 2, "lex")], &Vec::new(), &gate),
        vec![error("lex", at(0, 1), at(0, 2))]
    );
}

#[test]
fn a_lex_error_alone_still_waits_for_the_parse() {
    let none: Vec<Diag> = Vec::new();
    let tokens = lex("ab");
    let errs = [diag(0, 1, "lex")];
    assert_eq!(syntax_diagnostics("ab", &tokens, &errs, None, None), SyntaxStep::Parse);
    assert_eq!(syntax_diagnostics("ab", &tokens, &[], Some(&none), None), SyntaxStep::Gate);
}

fn file(path: &str, base: u32, src: &str) -> FileSrc {
    FileSrc { path: path.to_string(), base, src: src.to_string() }
}

fn loaded(files: Vec<FileSrc>) -> Program {
    Program { parsed: true, errors: Vec::new(), files }
}

#[test]
fn a_root_is_loaded_and_then_checked() {
    let tokens = lex("func main()");
    let program = loaded(vec![file("/m.dusk", 0, "func main()")]);
    let none = Vec::new();
    assert_eq!(semantic_diagnostics("/m.dusk", Some(&tokens), None, None), SemanticStep::Load);
    assert_eq!(semantic_diagnostics("/m.dusk", None, None, None), SemanticStep::Load);
    assert_eq!(
        semantic_diagnostics("/m.dusk", Some(&tokens), Some(&program), None),
        SemanticStep::Check
    );
    assert_eq!(
        semantic_diagnostics("/m.dusk", Some(&tokens), Some(&program), Some(&none)),
        SemanticStep::Publish(Vec::new())
    );
}

#[test]
fn a_guarded_root_is_never_loaded() {
    let tokens = lex(&"(".repeat(600));
    assert_eq!(
        semantic_diagnostics("/m.dusk", Some(&tokens), None, None),
        SemanticStep::Publish(Vec::new())
    );
}

#[test]
fn a_root_that_did_not_parse_is_left_to_the_syntax_pass() {
    let program =
        Program { parsed: false, errors: vec!["cannot parse".to_string()], files: Vec::new() };
    assert_eq!(
        semantic_diagnostics("/m.dusk", None, Some(&program), None),
        SemanticStep::Publish(Vec::new())
    );
}

#[test]
fn loader_errors_land_on_the_root() {
    let program = Program {
        parsed: true,
        errors: vec!["no module a".to_string(), "no module b".to_string()],
        files: vec![file("/m.dusk", 0, "x")],
    };
    let unused = vec![diag(0, 1, "never")];
    assert_eq!(
        semantic_diagnostics("/m.dusk", None, Some(&program), Some(&unused)),
        SemanticStep::Publish(vec![FileDiagnostics {
            path: "/m.dusk".to_string(),
            diagnostics: vec![
                error("no module a", at(0, 0), at(0, 0)),
                error("no module b", at(0, 0), at(0, 0)),
            ],
        }])
    );
}

#[test]
fn each_report_lands_in_its_own_file() {
    // Three files of a program; the middle one has nothing to say.
    let program = loaded(vec![
        file("/a.dusk", 10, "aa\nbb"),
        file("/b.dusk", 16, "cc"),
        file("/c.dusk", 20, "dd\nee"),
    ]);
    let checked = vec![
        diag(23, 25, "in c"),
        diag(13, 15, "in a"),
        diag(3, 4, "before every file"),
        diag(20, 5, "ends before it starts"),
        diag(10, 11, "again in a"),
    ];
    assert_eq!(
        semantic_diagnostics("/a.dusk", None, Some(&program), Some(&checked)),
        SemanticStep::Publish(vec![
            FileDiagnostics {
                path: "/a.dusk".to_string(),
                diagnostics: vec![
                    error("in a", at(1, 0), at(1, 2)),
                    error("again in a", at(0, 0), at(0, 1)),
                ],
            },
            FileDiagnostics {
                path: "/c.dusk".to_string(),
                diagnostics: vec![
                    error("in c", at(1, 0), at(1, 2)),
                    error("ends before it starts", at(0, 0), at(0, 0)),
                ],
            },
        ])
    );
}

// The store.

#[test]
fn a_read_gives_back_the_last_write() {
    let mut store = Store::new();
    assert_eq!(store.text("file:///a"), None);
    store.open("file:///a".to_string(), "one".to_string(), 1);
    store.open("file:///b".to_string(), "other".to_string(), 5);
    assert_eq!(store.snapshot("file:///a"), Some(("one".to_string(), 1)));
    store.update("file:///a".to_string(), "two".to_string(), 2);
    assert_eq!(store.text("file:///a").as_deref(), Some("two"));
    assert_eq!(store.version("file:///a"), Some(2));
    assert_eq!(store.snapshot("file:///b"), Some(("other".to_string(), 5)));
    store.close("file:///a");
    assert_eq!(store.snapshot("file:///a"), None);
    assert_eq!(store.version("file:///a"), None);
    assert_eq!(store.version("file:///b"), Some(5));
    store.close("file:///never");
    assert_eq!(store.version("file:///b"), Some(5));
}

// The workspace.

fn uri(name: &str) -> String {
    format!("file:///{name}")
}

fn indexed(ws: &mut Workspace, name: &str, src: &str, f: Func) {
    ws.index(uri(name), src, &syntax(src, vec![Item::Func(f)]));
}

fn built() -> (Workspace, String, String) {
    let mut ws = Workspace::new();
    let foo = "func foo() -> int32 {\n    return 0\n}\n";
    let main = "func main() -> int32 {\n    return foo()\n}\n";
    indexed(&mut ws, "a.dusk", foo, func("foo", Vec::new(), named("int32")));
    indexed(&mut ws, "b.dusk", main, func("main", Vec::new(), named("int32")));
    (ws, uri("a.dusk"), uri("b.dusk"))
}

#[test]
fn a_declared_name_is_a_global() {
    let (ws, _, _) = built();
    assert!(ws.declares("foo"));
    assert!(ws.declares("main"));
    assert!(!ws.declares("nope"));
}

#[test]
fn definition_points_at_the_declaring_file() {
    let (ws, a, _) = built();
    let defs = ws.definitions("foo");
    assert_eq!(defs.len(), 1);
    assert_eq!(defs[0].uri, a);
}

#[test]
fn references_span_every_file() {
    let (ws, _, _) = built();
    // The declaration in a.dusk and the call in b.dusk.
    assert_eq!(ws.references("foo", None).len(), 2);
}

#[test]
fn references_can_stay_in_one_file() {
    let (ws, _, b) = built();
    // Restricted to b.dusk, only the call remains.
    let refs = ws.references("foo", Some(&b));
    assert_eq!(refs.len(), 1);
    assert_eq!(refs[0].uri, b);
}

#[test]
fn symbols_match_by_substring() {
    let (ws, _, _) = built();
    let hits: Vec<String> = ws.symbols("oo").into_iter().map(|s| s.name).collect();
    assert_eq!(hits, vec!["foo".to_string()]);
    assert_eq!(ws.symbols("").len(), 2, "an empty query returns all");
}

#[test]
fn removing_a_file_drops_its_symbols() {
    let (mut ws, a, _) = built();
    ws.remove(&a);
    assert!(!ws.declares("foo"));
    assert!(ws.declares("main"));
}

#[test]
fn removing_a_file_undoes_indexing_it() {
    let (mut ws, _, _) = built();
    let src = "func baz() { foo() }";
    indexed(&mut ws, "c.dusk", src, func("baz", Vec::new(), named("int32")));
    assert_eq!(ws.references("foo", None).len(), 3);
    ws.remove(&uri("c.dusk"));
    ws.remove(&uri("never.dusk"));
    assert!(!ws.declares("baz"));
    assert_eq!(ws.references("foo", None).len(), 2);
    assert_eq!(ws.symbols("").len(), 2);
}

#[test]
fn index_if_absent_does_not_overwrite_an_open_file() {
    let mut ws = Workspace::new();
    let foo = "func foo() -> int32 {\n    return 0\n}\n";
    let bar = "func bar() -> int32 {\n    return 0\n}\n";
    indexed(&mut ws, "a.dusk", foo, func("foo", Vec::new(), named("int32")));
    // The startup scan reaching an already-open file must not replace it.
    let scanned = syntax(bar, vec![Item::Func(func("bar", Vec::new(), named("int32")))]);
    ws.index_if_absent(uri("a.dusk"), bar, &scanned);
    assert!(ws.declares("foo"));
    assert!(!ws.declares("bar"));
    // A file it has not seen is indexed.
    ws.index_if_absent(uri("b.dusk"), bar, &scanned);
    assert!(ws.declares("bar"));
}

#[test]
fn detail_is_stable_across_files_declaring_a_name() {
    let mut ws = Workspace::new();
    let z = "func foo() -> int64 {\n    return 0\n}\n";
    let a = "func foo() -> int32 {\n    return 0\n}\n";
    indexed(&mut ws, "z.dusk", z, func("foo", Vec::new(), named("int64")));
    indexed(&mut ws, "a.dusk", a, func("foo", Vec::new(), named("int32")));
    // The smallest URI, a.dusk, wins, every time.
    let d = ws.detail("foo").unwrap();
    assert!(d.contains("-> int32"), "{d}");
    assert_eq!(ws.detail("nope"), None);
}

#[test]
fn indexing_again_replaces_a_file() {
    let (mut ws, a, _) = built();
    let src = "func baz() -> int32 {}";
    indexed(&mut ws, "a.dusk", src, func("baz", Vec::new(), named("int32")));
    assert!(!ws.declares("foo"));
    assert_eq!(
        ws.definitions("baz"),
        vec![Location::new(a, Range::new(at(0, 5), at(0, 8)))]
    );
}

#[test]
fn definitions_are_among_the_references() {
    let (ws, _, _) = built();
    for name in ["foo", "main"] {
        let refs = ws.references(name, None);
        for def in ws.definitions(name) {
            assert!(refs.contains(&def));
        }
    }
    assert_eq!(ws.references("foo", Some("file:///none.dusk")), vec![]);
}

#[test]
fn workspace_symbols_ignore_case() {
    let mut ws = Workspace::new();
    let src = "struct FooBar { }\nfunc barn() { }";
    ws.index(uri("a.dusk"), src, &syntax(src, Vec::new()));
    let names = |query: &str| -> Vec<String> {
        ws.symbols(query).into_iter().map(|s| s.name).collect()
    };
    assert_eq!(names("OBAR"), vec!["FooBar"]);
    assert_eq!(names("BaR"), vec!["FooBar", "barn"]);
    assert_eq!(names("nope"), Vec::<String>::new());
    let hit = &ws.symbols("barn")[0];
    assert_eq!(hit.kind, SymbolKind::Function);
    assert_eq!(hit.location, Location::new(uri("a.dusk"), Range::new(at(1, 5), at(1, 9))));
}

#[test]
fn a_query_is_answered_by_part_of_a_name() {
    assert!(answers_to("foobar", "oba"));
    assert!(answers_to("foobar", ""));
    assert!(!answers_to("foobar", "baz"));
    assert!(!answers_to("", "a"));
}

// The server.

fn opened(text: &str) -> (Backend, vesper::server::Refresh) {
    let mut backend = Backend::new();
    let refresh =
        backend.did_open("file:///m.dusk".to_string(), text.to_string(), 1).expect("it is open");
    (backend, refresh)
}

fn per_file(path: &str, message: &str) -> Vec<FileDiagnostics> {
    vec![
        FileDiagnostics {
            path: path.to_string(),
            diagnostics: vec![error(message, at(0, 0), at(0, 1))],
        },
        FileDiagnostics {
            path: "/other.dusk".to_string(),
            diagnostics: vec![error("elsewhere", at(0, 0), at(0, 1))],
        },
    ]
}

#[test]
fn a_client_is_told_what_the_server_offers() {
    let answer = initialize(Some(Config { dusk_home: Some("/dusk".to_string()) }));
    assert_eq!(answer.name, "vesper");
    assert_eq!(answer.setting, Some(("DUSK_HOME".to_string(), "/dusk".to_string())));
    let offered = answer.capabilities;
    assert_eq!(offered.change, TextDocumentSyncKind::Full);
    assert!(offered.open_close && offered.save);
    assert!(offered.semantic_tokens_full && !offered.semantic_tokens_range);
    assert!(offered.hover && offered.definition && offered.references);
    assert!(offered.document_symbol && offered.workspace_symbol);
    assert_eq!(offered.semantic_tokens_legend, legend());
    assert_eq!(initialize(None).setting, None);
}

#[test]
fn opening_a_file_runs_both_passes() {
    let (mut backend, refresh) = opened("abc");
    assert_eq!(refresh.text, "abc");
    assert_eq!(refresh.version, 1);
    assert!(refresh.run_semantic);
    assert_eq!(refresh.path.as_deref(), Some("/m.dusk"));
    let publish = backend
        .finish_refresh(
            refresh,
            vec![error("syntax", at(0, 1), at(0, 2))],
            per_file("/m.dusk", "semantic"),
        )
        .expect("nothing newer came");
    assert_eq!(publish.uri, "file:///m.dusk");
    assert_eq!(publish.version, Some(1));
    assert_eq!(
        publish.diagnostics,
        vec![error("syntax", at(0, 1), at(0, 2)), error("semantic", at(0, 0), at(0, 1))]
    );
}

#[test]
fn a_semantic_error_outlives_an_edit() {
    let (mut backend, refresh) = opened("abc");
    backend.finish_refresh(refresh, Vec::new(), per_file("/m.dusk", "semantic"));
    for version in [2, 3] {
        let edit = backend
            .did_change(
                "file:///m.dusk".to_string(),
                vec!["stale".to_string(), "abcd".to_string()],
                version,
            )
            .expect("it is open");
        assert_eq!(edit.text, "abcd");
        assert!(!edit.run_semantic);
        assert_eq!(edit.path, None);
        let publish = backend.finish_refresh(edit, Vec::new(), Vec::new()).expect("current");
        assert_eq!(publish.version, Some(version));
        assert_eq!(publish.diagnostics, vec![error("semantic", at(0, 0), at(0, 1))]);
    }
    // A save that finds nothing clears it.
    let save = backend.did_save("file:///m.dusk").expect("it is open");
    assert!(save.run_semantic);
    let publish = backend.finish_refresh(save, Vec::new(), Vec::new()).expect("current");
    assert_eq!(publish.diagnostics, vec![]);
}

#[test]
fn a_stale_refresh_steps_aside() {
    let (mut backend, refresh) = opened("abc");
    assert!(!backend.superseded("file:///m.dusk", 1));
    backend.did_change("file:///m.dusk".to_string(), vec!["abcd".to_string()], 2);
    assert!(backend.superseded("file:///m.dusk", 1));
    assert_eq!(
        backend.finish_refresh(refresh, Vec::new(), per_file("/m.dusk", "semantic")),
        None
    );
    // What it found is still cached for the newer text.
    let next = backend.begin_refresh("file:///m.dusk", false).expect("it is open");
    let publish = backend.finish_refresh(next, Vec::new(), Vec::new()).expect("current");
    assert_eq!(publish.version, Some(2));
    assert_eq!(publish.diagnostics, vec![error("semantic", at(0, 0), at(0, 1))]);
}

#[test]
fn a_change_without_text_changes_nothing() {
    let (mut backend, _) = opened("abc");
    assert!(backend.did_change("file:///m.dusk".to_string(), Vec::new(), 9).is_none());
    assert_eq!(backend.text("file:///m.dusk").as_deref(), Some("abc"));
    assert!(!backend.superseded("file:///m.dusk", 1));
}

#[test]
fn closing_clears_a_document() {
    let (mut backend, refresh) = opened("abc");
    backend.finish_refresh(refresh, Vec::new(), per_file("/m.dusk", "semantic"));
    let late = backend.did_save("file:///m.dusk").expect("it is open");
    let publish = backend.did_close("file:///m.dusk".to_string());
    assert_eq!(publish.uri, "file:///m.dusk");
    assert_eq!(publish.diagnostics, vec![]);
    assert_eq!(publish.version, None);
    assert_eq!(backend.text("file:///m.dusk"), None);
    assert!(backend.did_save("file:///m.dusk").is_none());
    assert!(backend.superseded("file:///m.dusk", 1));
    assert_eq!(backend.finish_refresh(late, Vec::new(), Vec::new()), None);
    // Opened again, it starts without the old errors.
    backend.did_open("file:///m.dusk".to_string(), "abc".to_string(), 1);
    let next = backend.begin_refresh("file:///m.dusk", false).expect("it is open");
    let publish = backend.finish_refresh(next, Vec::new(), Vec::new()).expect("current");
    assert_eq!(publish.diagnostics, vec![]);
}

#[test]
fn a_document_without_a_path_has_no_semantic_pass() {
    let mut backend = Backend::new();
    let refresh = backend
        .did_open("untitled:Untitled-1".to_string(), "abc".to_string(), 1)
        .expect("it is open");
    assert!(refresh.run_semantic);
    assert_eq!(refresh.path, None);
    let publish = backend
        .finish_refresh(refresh, Vec::new(), per_file("", "never"))
        .expect("nothing newer came");
    assert_eq!(publish.diagnostics, vec![]);
}

#[test]
fn a_path_is_decoded_from_its_uri() {
    let mut backend = Backend::new();
    let refresh = backend
        .did_open("file:///my%20dir/m.dusk".to_string(), String::new(), 1)
        .expect("it is open");
    assert_eq!(refresh.path.as_deref(), Some("/my dir/m.dusk"));
}

#[test]
fn documents_do_not_mix() {
    let (mut backend, first) = opened("abc");
    let second =
        backend.did_open("file:///n.dusk".to_string(), "xyz".to_string(), 4).expect("it is open");
    backend.finish_refresh(first, Vec::new(), per_file("/m.dusk", "semantic"));
    let publish = backend.finish_refresh(second, Vec::new(), Vec::new()).expect("current");
    assert_eq!(publish.uri, "file:///n.dusk");
    assert_eq!(publish.version, Some(4));
    assert_eq!(publish.diagnostics, vec![]);
}

#[test]
fn only_a_files_own_diagnostics_are_taken() {
    assert_eq!(
        own_diagnostics(per_file("/m.dusk", "mine"), "/m.dusk"),
        vec![error("mine", at(0, 0), at(0, 1))]
    );
    assert_eq!(own_diagnostics(per_file("/m.dusk", "mine"), "/n.dusk"), vec![]);
}

#[test]
fn a_global_is_searched_everywhere_and_a_local_stays_home() {
    let mut backend = Backend::new();
    let a = "func foo(x: T) { }";
    let b = "func main() { foo(x) }";
    backend.index(uri("a.dusk"), a, &syntax(a, Vec::new()));
    backend.index_if_absent(uri("b.dusk"), b, &syntax(b, Vec::new()));
    assert_eq!(backend.references(&uri("b.dusk"), "foo").len(), 2);
    assert_eq!(
        backend.references(&uri("b.dusk"), "x"),
        vec![Location::new(uri("b.dusk"), Range::new(at(0, 18), at(0, 19)))]
    );
    assert_eq!(backend.symbols("FO").len(), 1);
    assert_eq!(backend.symbols("").len(), 2);
}
