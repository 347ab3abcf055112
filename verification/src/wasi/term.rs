//! Terms of the language in which the specification states what a function
//! requires of its inputs.
use vstd::prelude::*;

use num_bigint::BigInt;

verus! {

#[verifier::external_type_specification]
#[verifier::external_body]
pub struct ExBigInt(BigInt);

#[derive(PartialEq, Eq, Debug)]
pub enum Term {
    Not(Box<Not>),
    And(And),
    Or(Or),
    AttrGet(Box<AttrGet>),
    Param(Param),
    FlagsGet(Box<FlagsGet>),
    IntConst(BigInt),
    IntAdd(Box<IntAdd>),
    IntLe(Box<IntLe>),
    ValueEq(Box<ValueEq>),
    VariantConst(Box<VariantConst>),
}

#[derive(PartialEq, Eq, Debug)]
pub struct Not {
    pub term: Term,
}

#[derive(PartialEq, Eq, Debug)]
pub struct And {
    pub clauses: Vec<Term>,
}

#[derive(PartialEq, Eq, Debug)]
pub struct Or {
    pub clauses: Vec<Term>,
}

#[derive(PartialEq, Eq, Debug)]
pub struct AttrGet {
    pub target: Term,
    pub attr: String,
}

#[derive(PartialEq, Eq, Clone, Debug)]
pub struct Param {
    pub name: String,
}

#[derive(PartialEq, Eq, Debug)]
pub struct FlagsGet {
    pub target: Term,
    pub flags_type: String,
    pub field: String,
}

#[derive(PartialEq, Eq, Debug)]
pub struct IntAdd {
    pub lhs: Term,
    pub rhs: Term,
}

#[derive(PartialEq, Eq, Debug)]
pub struct IntLe {
    pub lhs: Term,
    pub rhs: Term,
}

#[derive(PartialEq, Eq, Debug)]
pub struct ValueEq {
    pub lhs: Term,
    pub rhs: Term,
}

#[derive(PartialEq, Eq, Debug)]
pub struct VariantConst {
    pub ty: String,
    pub case: String,
    pub payload: Option<Term>,
}

} // verus!
