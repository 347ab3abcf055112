//! Terms of the language in which the specification states what a function
//! requires of its inputs and promises of its outputs.
use vstd::prelude::*;

use num_bigint::BigInt;

verus! {

#[derive(PartialEq, Eq, Debug)]
pub enum Term {
    Foldl(Box<Foldl>),
    Lambda(Box<Lambda>),
    MapOver(Box<MapOver>),
    Binding(String),
    True,
    String(String),
    Not(Box<Not>),
    And(And),
    Or(Or),
    RecordField(Box<RecordField>),
    Param(Param),
    Result(Param),
    ResourceId(String),
    FlagsGet(Box<FlagsGet>),
    ListLen(Box<ListLen>),
    IntWrap(Box<IntWrap>),
    IntConst(BigInt),
    IntAdd(Box<IntAdd>),
    IntGt(Box<IntGt>),
    IntLe(Box<IntLe>),
    StrAt(Box<BinaryTerm>),
    U64Const(Box<UnaryTerm>),
    ValueEq(Box<ValueEq>),
    VariantConst(Box<VariantConst>),
    NoNonExistentDirBacktrack(Box<NoNonExistentDirBacktrack>),
}

#[derive(PartialEq, Eq, Debug)]
pub struct UnaryTerm {
    pub term: Term,
}

#[derive(PartialEq, Eq, Debug)]
pub struct BinaryTerm {
    pub lhs: Term,
    pub rhs: Term,
}

/// Folds `func` over the items of `target`, starting from `acc`.
#[derive(PartialEq, Eq, Debug)]
pub struct Foldl {
    pub target: Term,
    pub acc: Term,
    pub func: Term,
}

/// A function of the bound names.
#[derive(PartialEq, Eq, Debug)]
pub struct Lambda {
    pub bounds: Vec<Bound>,
    pub body: Term,
}

/// Applies `func` to each item of `target`.
#[derive(PartialEq, Eq, Debug)]
pub struct MapOver {
    pub target: Term,
    pub func: Term,
}

/// A name bound by a lambda, and its type.
#[derive(PartialEq, Eq, Debug)]
pub struct Bound {
    pub name: String,
    pub tref: TypeRef,
}

/// The type of a bound name: a type of the spec by name, or one of the
/// language's own.
#[derive(PartialEq, Eq, Debug)]
pub enum TypeRef {
    Wasi(String),
    Wazzi(WazziType),
}

/// The language's own types.
#[derive(PartialEq, Eq, Clone, Copy, Debug)]
pub enum WazziType {
    Bool,
    Int,
}

#[derive(PartialEq, Eq, Debug)]
pub struct Not {
    pub term: Term,
}

#[derive(PartialEq, Eq, Debug)]
pub struct And {
    pub clauses: Vec<Term>,
}

#[derive(PartialEq, Eq, Debug)]
pub struct Or {
    pub clauses: Vec<Term>,
}

#[derive(PartialEq, Eq, Debug)]
pub struct RecordField {
    pub target: Term,
    pub member: String,
}

#[derive(PartialEq, Eq, Debug)]
pub struct Param {
    pub name: String,
}

#[derive(PartialEq, Eq, Debug)]
pub struct FlagsGet {
    pub target: Term,
    pub field: String,
}

#[derive(PartialEq, Eq, Debug)]
pub struct ListLen {
    pub op: Term,
}

#[derive(PartialEq, Eq, Debug)]
pub struct IntWrap {
    pub op: Term,
}

#[derive(PartialEq, Eq, Debug)]
pub struct IntAdd {
    pub lhs: Term,
    pub rhs: Term,
}

#[derive(PartialEq, Eq, Debug)]
pub struct IntGt {
    pub lhs: Term,
    pub rhs: Term,
}

#[derive(PartialEq, Eq, Debug)]
pub struct IntLe {
    pub lhs: Term,
    pub rhs: Term,
}

#[derive(PartialEq, Eq, Debug)]
pub struct ValueEq {
    pub lhs: Term,
    pub rhs: Term,
}

#[derive(PartialEq, Eq, Debug)]
pub struct VariantConst {
    pub ty: String,
    pub case: String,
    pub payload: Option<Term>,
}

/// A path argument does not lead back out of a directory that does not
/// exist.
#[derive(PartialEq, Eq, Debug)]
pub struct NoNonExistentDirBacktrack {
    pub fd_param: String,
    pub path_param: String,
}

} // verus!
