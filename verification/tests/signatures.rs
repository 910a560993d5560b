//! Signatures and type spellings.

use vesper::compiler::ast::{Enum, Field, ForeignFunc, Func, MethodSig, Param, Struct, Type, Variant};
use vesper::compiler::is_primitive;
use vesper::compiler::render::{
    decimal_str, enum_sig, foreign_sig, func_sig, generics, header, join, method_sig, struct_sig,
    type_str,
};
use vesper::compiler::sort::{sort_by_start, Item};
use vesper::protocol::SymbolKind;

fn name(n: &str) -> Type {
    Type::Named(n.to_string(), Vec::new())
}

fn ptr(t: Type) -> Type {
    Type::Ptr(Box::new(t))
}

fn slice(t: Type) -> Type {
    Type::Slice(Box::new(t))
}

fn array(t: Type, n: u64) -> Type {
    Type::Array(Box::new(t), n)
}

fn function(params: Vec<Type>, ret: Type) -> Type {
    Type::Func(params, Box::new(ret))
}

#[test]
fn types_have_their_dusk_spelling() {
    let cases = vec![
        (name("int32"), "int32"),
        (Type::Named("Map".to_string(), vec![name("K"), name("V")]), "Map<K, V>"),
        (ptr(name("T")), "*T"),
        (Type::RawPtr(Box::new(name("T"))), "*raw T"),
        (slice(name("T")), "T[]"),
        (array(name("T"), 0), "T[0]"),
        (array(name("T"), u64::MAX), "T[18446744073709551615]"),
        (Type::Tuple(Vec::new()), "()"),
        (Type::Tuple(vec![name("A"), name("B")]), "(A, B)"),
        (function(Vec::new(), Type::Unit), "() -> void"),
        (function(vec![name("A"), name("B")], name("C")), "(A, B) -> C"),
        (Type::Unit, "void"),
    ];
    for (t, want) in cases {
        assert_eq!(type_str(&t), want);
    }
}

#[test]
fn a_suffix_binds_to_its_whole_element() {
    // A pointer to a slice and a slice of pointers are told apart by the parens.
    assert_eq!(type_str(&ptr(slice(name("T")))), "*T[]");
    assert_eq!(type_str(&slice(ptr(name("T")))), "(*T)[]");
    assert_eq!(type_str(&slice(Type::RawPtr(Box::new(name("T"))))), "(*raw T)[]");
    assert_eq!(type_str(&array(function(vec![name("A")], name("B")), 3)), "((A) -> B)[3]");
    assert_eq!(type_str(&function(vec![name("A")], array(name("B"), 3))), "(A) -> B[3]");
    assert_eq!(type_str(&array(slice(name("T")), 2)), "T[][2]");
    assert_eq!(type_str(&slice(Type::Tuple(vec![name("A"), name("B")]))), "(A, B)[]");
}

#[test]
fn different_types_are_spelled_differently() {
    let all = vec![
        name("raw"), ptr(name("raw")), Type::RawPtr(Box::new(name("raw"))), slice(name("raw")),
        array(name("raw"), 1), array(name("raw"), 11), ptr(slice(name("A"))),
        slice(ptr(name("A"))), ptr(ptr(name("A"))), Type::Tuple(Vec::new()),
        Type::Tuple(vec![name("A"), name("B")]), function(Vec::new(), Type::Tuple(Vec::new())),
        function(vec![name("A")], name("B")), function(vec![name("A"), name("B")], name("C")),
        slice(function(vec![name("A")], name("B"))), function(vec![name("A")], slice(name("B"))),
        Type::Named("A".to_string(), vec![name("B")]),
        Type::Named("A".to_string(), vec![name("B"), name("C")]), Type::Unit, slice(Type::Unit),
    ];
    let spelled: Vec<String> = all.iter().map(type_str).collect();
    for i in 0..spelled.len() {
        for j in 0..i {
            assert_ne!(spelled[i], spelled[j]);
        }
    }
}

#[test]
fn numbers_are_written_in_decimal() {
    for n in [0u64, 7, 10, 99, 100, 4096, 1234567890, u64::MAX] {
        assert_eq!(decimal_str(n), n.to_string());
    }
}

#[test]
fn parts_are_joined_with_separators_between() {
    let parts = |list: &[&str]| -> Vec<String> { list.iter().map(|s| s.to_string()).collect() };
    assert_eq!(join(&parts(&[]), ", "), "");
    assert_eq!(join(&parts(&["a"]), ", "), "a");
    assert_eq!(join(&parts(&["a", "", "c"]), "; "), "a; ; c");
}

#[test]
fn generics_are_listed_or_left_out() {
    assert_eq!(generics(&Vec::new()), "");
    assert_eq!(generics(&vec!["A".to_string()]), "<A>");
    assert_eq!(generics(&vec!["A".to_string(), "B".to_string()]), "<A, B>");
}

fn a_param(n: &str, using: bool) -> Param {
    Param { name: n.to_string(), ty: name("int32"), using }
}

#[test]
fn functions_show_all_of_their_signature() {
    let f = Func {
        name: "run".to_string(),
        is_async: true,
        generics: vec!["T".to_string()],
        params: vec![a_param("a", true), a_param("b", false)],
        ret: name("T"),
    };
    assert_eq!(func_sig(&f), "async func run<T>(using a: int32, b: int32) -> T");
    let ff = ForeignFunc { name: "puts".to_string(), params: vec![a_param("s", false)], ret: Type::Unit };
    assert_eq!(foreign_sig(&ff), "func puts(s: int32) -> void");
    let m = MethodSig { name: "len".to_string(), params: Vec::new(), ret: name("int64") };
    assert_eq!(method_sig(&m), "len() -> int64");
}

#[test]
fn structs_and_enums_show_their_members() {
    let f = |n: &str| Field { name: n.to_string(), ty: name("int64") };
    let s = Struct { name: "P".to_string(), generics: vec!["T".to_string()], fields: vec![f("x"), f("y")] };
    assert_eq!(struct_sig(&s), "struct P<T> { x: int64, y: int64 }");
    let empty = Struct { name: "E".to_string(), generics: Vec::new(), fields: Vec::new() };
    assert_eq!(struct_sig(&empty), "struct E {  }");
    let e = Enum {
        name: "S".to_string(),
        generics: Vec::new(),
        variants: vec![
            Variant { name: "A".to_string(), fields: vec![f("x"), f("y")] },
            Variant { name: "B".to_string(), fields: Vec::new() },
        ],
    };
    assert_eq!(enum_sig(&e), "enum S { A(x: int64, y: int64), B }");
}

#[test]
fn headers_name_their_kind() {
    assert_eq!(header(SymbolKind::Function, "f"), "func f");
    assert_eq!(header(SymbolKind::Struct, "s"), "struct s");
    assert_eq!(header(SymbolKind::Enum, "e"), "enum e");
    assert_eq!(header(SymbolKind::Interface, "i"), "interface i");
    assert_eq!(header(SymbolKind::Namespace, "m"), "monad m");
    assert_eq!(header(SymbolKind::Function, ""), "func");
}

#[test]
fn the_builtin_types_are_known_by_spelling() {
    for n in [
        "int8", "int16", "int32", "int64", "uint8", "uint16", "uint32", "uint64", "float32",
        "float64", "bool", "char", "string", "void", "thread",
    ] {
        assert!(is_primitive(n), "{n}");
    }
    for n in ["", "error", "int", "Int32", "int320", "int3"] {
        assert!(!is_primitive(n), "{n}");
    }
}

#[test]
fn sorting_by_start_is_stable() {
    let item = |line: u32, start: u32, len: u32| Item { line, start, len, ty: 0, mods: 0 };
    let out = sort_by_start(&vec![
        item(2, 1, 1), item(0, 5, 2), item(1, 0, 3), item(0, 5, 4), item(0, 2, 5), item(2, 0, 6),
    ]);
    assert_eq!(
        out,
        vec![
            item(0, 2, 5), item(0, 5, 2), item(0, 5, 4), item(1, 0, 3), item(2, 0, 6), item(2, 1, 1),
        ]
    );
    assert_eq!(sort_by_start(&Vec::new()), vec![]);
}
