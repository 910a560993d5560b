//! Builtin names the language blesses, shared by highlighting and navigation.

use vstd::prelude::*;

use crate::text::same_str;

verus! {

/// The spellings of the builtin primitive types.
pub open spec fn primitive(name: Seq<char>) -> bool {
    ||| name == "int8"@
    ||| name == "int16"@
    ||| name == "int32"@
    ||| name == "int64"@
    ||| name == "uint8"@
    ||| name == "uint16"@
    ||| name == "uint32"@
    ||| name == "uint64"@
    ||| name == "float32"@
    ||| name == "float64"@
    ||| name == "bool"@
    ||| name == "char"@
    ||| name == "string"@
    ||| name == "void"@
    ||| name == "thread"@
}

/// The builtin primitive type names, matching the compiler's own set. They lex
/// as ordinary identifiers, so both highlighting and hover recognize them by
/// spelling. `error` is not among them: it is a value type the compiler resolves
/// elsewhere, and a name spelled `error` in value position is an ordinary
/// identifier.
pub fn is_primitive(name: &str) -> (builtin: bool)
    ensures
        builtin == primitive(name@),
{
    same_str(name, "int8") || same_str(name, "int16") || same_str(name, "int32") || same_str(
        name,
        "int64",
    ) || same_str(name, "uint8") || same_str(name, "uint16") || same_str(name, "uint32")
        || same_str(name, "uint64") || same_str(name, "float32") || same_str(name, "float64")
        || same_str(name, "bool") || same_str(name, "char") || same_str(name, "string")
        || same_str(name, "void") || same_str(name, "thread")
}

/// The builtin types are these fifteen names and no other.
pub proof fn law_the_builtin_types_are_fifteen(name: Seq<char>)
    ensures
        primitive(name) <==> seq![
            "int8"@,
            "int16"@,
            "int32"@,
            "int64"@,
            "uint8"@,
            "uint16"@,
            "uint32"@,
            "uint64"@,
            "float32"@,
            "float64"@,
            "bool"@,
            "char"@,
            "string"@,
            "void"@,
            "thread"@,
        ].contains(name),
{
    let all = seq![
        "int8"@,
        "int16"@,
        "int32"@,
        "int64"@,
        "uint8"@,
        "uint16"@,
        "uint32"@,
        "uint64"@,
        "float32"@,
        "float64"@,
        "bool"@,
        "char"@,
        "string"@,
        "void"@,
        "thread"@,
    ];
    assert(all.len() == 15);
    assert(all[0] == "int8"@ && all[1] == "int16"@ && all[2] == "int32"@ && all[3] == "int64"@);
    assert(all[4] == "uint8"@ && all[5] == "uint16"@ && all[6] == "uint32"@ && all[7]
        == "uint64"@);
    assert(all[8] == "float32"@ && all[9] == "float64"@ && all[10] == "bool"@ && all[11]
        == "char"@);
    assert(all[12] == "string"@ && all[13] == "void"@ && all[14] == "thread"@);
    if all.contains(name) {
        let i = all.index_of(name);
        assert(all[i] == name);
    }
}

} // verus!
