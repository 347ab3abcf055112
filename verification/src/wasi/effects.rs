//! Statements of the language in which the specification states what a
//! function does to resources.
use vstd::prelude::*;

use super::value::WasiValue;

verus! {

#[derive(PartialEq, Eq, Debug)]
pub enum Stmt {
    AttrSet(AttrSet),
}

/// Sets attribute `attr` of the resource that `resource` names to `value`.
#[derive(PartialEq, Eq, Debug)]
pub struct AttrSet {
    pub resource: String,
    pub attr: String,
    pub value: Expr,
}

#[derive(PartialEq, Eq, Debug)]
pub struct Program {
    pub stmts: Vec<Stmt>,
}

#[derive(PartialEq, Eq, Debug)]
pub enum Expr {
    WasiValue(WasiValue),
}

} // verus!
