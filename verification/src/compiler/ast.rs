//! The declarations the dusk parser finds in a file, down to what a signature
//! shows.

use vstd::prelude::*;

verus! {

/// A type as it is written.
#[derive(Debug)]
pub enum Type {
    /// A name, with its generic arguments.
    Named(String, Vec<Type>),
    Ptr(Box<Type>),
    RawPtr(Box<Type>),
    Slice(Box<Type>),
    /// An element type and a length.
    Array(Box<Type>, u64),
    Tuple(Vec<Type>),
    /// Parameter types and a return type.
    Func(Vec<Type>, Box<Type>),
    Unit,
}

/// What a type is, apart from how it is stored.
pub enum TypeTree {
    Named(Seq<char>, Seq<TypeTree>),
    Ptr(Box<TypeTree>),
    RawPtr(Box<TypeTree>),
    Slice(Box<TypeTree>),
    Array(Box<TypeTree>, nat),
    Tuple(Seq<TypeTree>),
    Func(Seq<TypeTree>, Box<TypeTree>),
    Unit,
}

impl Type {
    pub open spec fn view(&self) -> TypeTree
        decreases self,
    {
        match self {
            Type::Named(name, args) => TypeTree::Named(name@, trees(args@)),
            Type::Ptr(inner) => TypeTree::Ptr(Box::new(inner.view())),
            Type::RawPtr(inner) => TypeTree::RawPtr(Box::new(inner.view())),
            Type::Slice(inner) => TypeTree::Slice(Box::new(inner.view())),
            Type::Array(inner, n) => TypeTree::Array(Box::new(inner.view()), *n as nat),
            Type::Tuple(items) => TypeTree::Tuple(trees(items@)),
            Type::Func(params, ret) => TypeTree::Func(trees(params@), Box::new(ret.view())),
            Type::Unit => TypeTree::Unit,
        }
    }
}

/// What each of several types is.
pub open spec fn trees(types: Seq<Type>) -> Seq<TypeTree>
    decreases types,
{
    if types.len() == 0 {
        Seq::empty()
    } else {
        trees(types.drop_last()).push(types.last().view())
    }
}

/// Each type has its own tree.
pub proof fn lemma_trees(types: Seq<Type>)
    ensures
        trees(types).len() == types.len(),
        forall|i: int| 0 <= i < types.len() ==> #[trigger] trees(types)[i] == types[i].view(),
    decreases types.len(),
{
    if types.len() > 0 {
        lemma_trees(types.drop_last());
        assert forall|i: int| 0 <= i < types.len() implies #[trigger] trees(types)[i]
            == types[i].view() by {
            if i < types.len() - 1 {
                assert(trees(types.drop_last())[i] == types.drop_last()[i].view());
            }
        }
    }
}

/// A parameter. A `using` one binds the ambient allocator.
#[derive(Debug)]
pub struct Param {
    pub name: String,
    pub ty: Type,
    pub using: bool,
}

#[derive(Debug)]
pub struct Func {
    pub name: String,
    pub is_async: bool,
    pub generics: Vec<String>,
    pub params: Vec<Param>,
    pub ret: Type,
}

/// A named field of a struct or of an enum variant.
#[derive(Debug)]
pub struct Field {
    pub name: String,
    pub ty: Type,
}

#[derive(Debug)]
pub struct Struct {
    pub name: String,
    pub generics: Vec<String>,
    pub fields: Vec<Field>,
}

#[derive(Debug)]
pub struct Variant {
    pub name: String,
    pub fields: Vec<Field>,
}

#[derive(Debug)]
pub struct Enum {
    pub name: String,
    pub generics: Vec<String>,
    pub variants: Vec<Variant>,
}

#[derive(Debug)]
pub struct MethodSig {
    pub name: String,
    pub params: Vec<Param>,
    pub ret: Type,
}

#[derive(Debug)]
pub struct Interface {
    pub name: String,
    pub generics: Vec<String>,
    pub methods: Vec<MethodSig>,
}

#[derive(Debug)]
pub struct Impl {
    pub methods: Vec<Func>,
}

#[derive(Debug)]
pub struct ForeignFunc {
    pub name: String,
    pub params: Vec<Param>,
    pub ret: Type,
}

#[derive(Debug)]
pub struct Foreign {
    pub funcs: Vec<ForeignFunc>,
}

#[derive(Debug)]
pub enum Item {
    Func(Func),
    Struct(Struct),
    Enum(Enum),
    Interface(Interface),
    Impl(Impl),
    Foreign(Foreign),
}

/// A parsed file: the monad blocks it names and the items it declares, each in
/// source order.
#[derive(Debug)]
pub struct Module {
    pub monads: Vec<String>,
    pub items: Vec<Item>,
}

} // verus!
