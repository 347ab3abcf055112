//! The annotated WASI specification as its parser hands it over: a tree of
//! nodes, each with the grammar rule it matched, the text it spans and the
//! nodes inside it; and what is read from it: the types of the spec, the
//! terms of an `@input` annotation and the statements of an `@effects` one.
use vstd::prelude::*;

use num_bigint::BigInt;
use std::str::FromStr;

use crate::specz::env::{find_named, first_named};
use crate::text::{chars_of, i64_read, parse_i64, push_char};
use crate::wasi::types::{
    same_wazzi, Function, FunctionParam, FunctionResult, Interface, FlagsType, IntRepr, ListType, RecordMemberType, RecordType, Spec, VariantCaseType,
    VariantType, WasiType, WazziType,
};
use crate::wasi::effects::{AttrSet, Expr, Program, Stmt};
use crate::wasi::value::{VariantValue, WasiValue};
use crate::wasi_spec::slang;
use crate::wasi::term::{
    And, AttrGet, FlagsGet, IntAdd, IntLe, Not, Or, Param, Term, ValueEq, VariantConst,
};

verus! {

/// The grammar rule that a node matched: those of the specification's
/// types, of its `@input` terms and of its `@effects` statements, and any
/// other.
#[derive(PartialEq, Eq, Structural, Clone, Copy, Debug)]
pub enum Rule {
    Not,
    And,
    Or,
    AttrGet,
    Param,
    FlagsGet,
    IntAdd,
    IntLe,
    NumLit,
    ValueEq,
    VariantConst,
    Comment,
    Id,
    TypeRef,
    Type,
    S64,
    U8,
    U16,
    U32,
    U64,
    Handle,
    Flags,
    Enum,
    Union,
    Expected,
    Record,
    RecordField,
    String,
    List,
    IntRepr,
    AnnotationExpr,
    Annotation,
    AttrSet,
    S64Const,
    Foldl,
    Lambda,
    MapOver,
    True,
    Result,
    ResourceId,
    IntConst,
    IntGt,
    ListLen,
    StrAt,
    U64Const,
    NoNonExistentDirBacktrack,
    Bool,
    Int,
    Function,
    FunctionName,
    Typename,
    Module,
    Eoi,
    Document,
    Other,
}

/// A node of the parse tree: the rule it matched, the text it spans, and
/// the nodes inside it, in order.
#[derive(Debug)]
pub struct WitxNode {
    pub rule: Rule,
    pub text: String,
    pub children: Vec<WitxNode>,
}

/// Why the specification could not be read.
#[derive(PartialEq, Eq, Clone, Copy, Debug)]
pub enum SpecError {
    /// An integer literal is not one.
    BadInteger,
    /// An integer representation is not one of the four widths.
    UnknownIntRepr,
    /// A field, case or member is of an unexpected rule.
    UnexpectedField,
    /// A type is named that the spec does not have.
    UnknownType,
    /// A type is of an unexpected rule.
    UnexpectedType,
    /// A name is not an identifier.
    ExpectedId,
    /// A type name is not followed by a type reference.
    ExpectedTypeRef,
    /// A type name is given twice.
    AlreadyDefined,
}

/// The integer that `BigInt::from_str` reads from `s`, if it reads one.
pub uninterp spec fn bigint_read(s: Seq<char>) -> Option<BigInt>;

/// Whether `BigInt::from_str` reads an integer from `s`: after an optional
/// `-` not followed by `+`, and then an optional `+` not followed by `+`,
/// one or more decimal digits and underscores, the first a digit.
#[verifier::opaque]
pub open spec fn bigint_text(s: Seq<char>) -> bool {
    let a = if s.len() > 0 && s[0] == '-' && !(s.len() > 1 && s[1] == '+') {
        s.drop_first()
    } else {
        s
    };
    let b = if a.len() > 0 && a[0] == '+' && !(a.len() > 1 && a[1] == '+') {
        a.drop_first()
    } else {
        a
    };
    &&& b.len() > 0
    &&& b[0] != '_'
    &&& forall|i: int| 0 <= i < b.len() ==> ('0' <= #[trigger] b[i] && b[i] <= '9') || b[i] == '_'
}

/// `BigInt::from_str`: the integer written in `s`, read in base ten. It
/// reads one exactly where `bigint_text` holds; what the integer is, is only
/// named, since Verus sees no value inside a `BigInt`.
#[verifier::external_body]
fn parse_bigint(s: &str) -> (r: Option<BigInt>)
    ensures
        r == bigint_read(s@),
        r is Some <==> bigint_text(s@),
{
    BigInt::from_str(s).ok()
}

/// Whether a node's text is an identifier: a `$` and its name.
pub open spec fn is_id(n: WitxNode) -> bool {
    n.text@.len() > 0 && n.text@[0] == '$'
}

/// The name of an identifier, its text after the `$`.
pub open spec fn id_name(n: WitxNode) -> Seq<char> {
    n.text@.drop_first()
}

/// Whether a node has the shape of a term: each rule with the nodes that
/// the reading takes from it, identifiers where names are read.
pub open spec fn term_shaped(n: WitxNode) -> bool
    decreases n,
{
    let cs = n.children@;
    match n.rule {
        Rule::Not => cs.len() >= 1 && term_shaped(cs[0]),
        Rule::And => forall|i: int| 0 <= i < cs.len() && (#[trigger] cs[i]).rule != Rule::Comment ==> term_shaped(cs[i]),
        Rule::Or => forall|i: int| 0 <= i < cs.len() ==> term_shaped(#[trigger] cs[i]),
        Rule::AttrGet => cs.len() >= 2 && term_shaped(cs[0]) && is_id(cs[1]),
        Rule::Param => cs.len() >= 1 && is_id(cs[0]),
        Rule::FlagsGet => cs.len() >= 3 && term_shaped(cs[0]) && is_id(cs[1]) && is_id(cs[2]),
        Rule::IntAdd | Rule::IntLe | Rule::ValueEq => cs.len() >= 2 && term_shaped(cs[0]) && term_shaped(cs[1]),
        Rule::NumLit => true,
        Rule::VariantConst => cs.len() >= 2 && is_id(cs[0]) && is_id(cs[1]) && (cs.len() >= 3 ==> term_shaped(cs[2])),
        _ => false,
    }
}

/// Whether every integer literal that the reading of a term meets is one.
pub open spec fn literals_read(n: WitxNode) -> bool
    decreases n,
{
    let cs = n.children@;
    match n.rule {
        Rule::NumLit => bigint_text(n.text@),
        Rule::Not | Rule::AttrGet | Rule::FlagsGet => cs.len() >= 1 ==> literals_read(cs[0]),
        Rule::And => forall|i: int| 0 <= i < cs.len() && (#[trigger] cs[i]).rule != Rule::Comment ==> literals_read(cs[i]),
        Rule::Or => forall|i: int| 0 <= i < cs.len() ==> literals_read(#[trigger] cs[i]),
        Rule::IntAdd | Rule::IntLe | Rule::ValueEq => cs.len() >= 2 ==> literals_read(cs[0]) && literals_read(cs[1]),
        Rule::VariantConst => cs.len() >= 3 ==> literals_read(cs[2]),
        _ => true,
    }
}

/// Whether `t` is the term that a node reads as: the operator of its rule
/// over the terms of the nodes inside it, names read from identifiers, and
/// the integer that a literal's text is.
pub open spec fn term_matches(n: WitxNode, t: Term) -> bool
    decreases n,
{
    let cs = n.children@;
    match n.rule {
        Rule::Not => cs.len() >= 1 && (t matches Term::Not(b) && term_matches(cs[0], b.term)),
        Rule::And => t matches Term::And(a) && clauses_match(cs, a.clauses@),
        Rule::Or => t matches Term::Or(o) && o.clauses@.len() == cs.len() && forall|i: int|
            0 <= i < cs.len() ==> term_matches(#[trigger] cs[i], o.clauses@[i]),
        Rule::AttrGet => cs.len() >= 2 && (t matches Term::AttrGet(g) && term_matches(cs[0], g.target)
            && g.attr@ == id_name(cs[1])),
        Rule::Param => cs.len() >= 1 && (t matches Term::Param(p) && p.name@ == id_name(cs[0])),
        Rule::FlagsGet => cs.len() >= 3 && (t matches Term::FlagsGet(f) && term_matches(cs[0], f.target)
            && f.flags_type@ == id_name(cs[1]) && f.field@ == id_name(cs[2])),
        Rule::IntAdd => cs.len() >= 2 && (t matches Term::IntAdd(x) && term_matches(cs[0], x.lhs)
            && term_matches(cs[1], x.rhs)),
        Rule::IntLe => cs.len() >= 2 && (t matches Term::IntLe(x) && term_matches(cs[0], x.lhs)
            && term_matches(cs[1], x.rhs)),
        Rule::ValueEq => cs.len() >= 2 && (t matches Term::ValueEq(x) && term_matches(cs[0], x.lhs)
            && term_matches(cs[1], x.rhs)),
        Rule::NumLit => t matches Term::IntConst(b) && bigint_read(n.text@) == Some(b),
        Rule::VariantConst => cs.len() >= 2 && (t matches Term::VariantConst(v) && v.ty@ == id_name(cs[0])
            && v.case@ == id_name(cs[1]) && if cs.len() >= 3 {
            v.payload matches Some(p) && term_matches(cs[2], p)
        } else {
            v.payload is None
        }),
        _ => false,
    }
}

/// Whether `ts` are the terms of the nodes `cs` that are not comments, in
/// order.
pub open spec fn clauses_match(cs: Seq<WitxNode>, ts: Seq<Term>) -> bool
    decreases cs,
{
    if cs.len() == 0 {
        ts.len() == 0
    } else if cs[cs.len() - 1].rule == Rule::Comment {
        clauses_match(cs.subrange(0, cs.len() - 1), ts)
    } else {
        ts.len() > 0 && term_matches(cs[cs.len() - 1], ts[ts.len() - 1]) && clauses_match(
            cs.subrange(0, cs.len() - 1),
            ts.subrange(0, ts.len() - 1),
        )
    }
}

/// The name of an identifier.
pub(crate) fn id_of(n: &WitxNode) -> (r: String)
    requires
        is_id(*n),
    ensures
        r@ == id_name(*n),
{
    let cs = chars_of(n.text.as_str());
    let mut r = String::new();
    let mut i: usize = 1;
    while i < cs.len()
        invariant
            cs@ == n.text@,
            1 <= i <= cs@.len(),
            r@ == cs@.subrange(1, i as int),
        decreases cs@.len() - i,
    {
        push_char(&mut r, cs[i]);
        assert(cs@.subrange(1, i + 1) == cs@.subrange(1, i as int).push(cs@[i as int]));
        i = i + 1;
    }
    assert(cs@.subrange(1, cs@.len() as int) == n.text@.drop_first());
    r
}

/// Reads the term that a node of an `@input` annotation stands for. It
/// fails with `BadInteger` exactly where an integer literal it meets is not
/// one.
pub fn to_term(n: &WitxNode) -> (r: Result<Term, SpecError>)
    requires
        term_shaped(*n),
    ensures
        r is Ok <==> literals_read(*n),
        r matches Ok(t) ==> term_matches(*n, t),
        r matches Err(e) ==> e == SpecError::BadInteger,
    decreases n,
{
    let ghost cs = n.children@;
    match n.rule {
        Rule::Not => match to_term(&n.children[0]) {
            Ok(t) => Ok(Term::Not(Box::new(Not { term: t }))),
            Err(e) => Err(e),
        },
        Rule::And => {
            let mut clauses: Vec<Term> = Vec::new();
            let mut i: usize = 0;
            while i < n.children.len()
                invariant
                    cs == n.children@,
                    n.rule == Rule::And,
                    term_shaped(*n),
                    i <= cs.len(),
                    clauses_match(cs.subrange(0, i as int), clauses@),
                    forall|j: int| 0 <= j < i && (#[trigger] cs[j]).rule != Rule::Comment ==> literals_read(cs[j]),
                decreases cs.len() - i,
            {
                let c = &n.children[i];
                let ghost before = clauses@;
                assert(cs.subrange(0, i + 1).subrange(0, i as int) == cs.subrange(0, i as int));
                if c.rule != Rule::Comment {
                    assert(term_shaped(cs[i as int]));
                    match to_term(c) {
                        Ok(t) => {
                            clauses.push(t);
                            assert(clauses@.subrange(0, clauses@.len() - 1) == before);
                        },
                        Err(e) => {
                            return Err(e);
                        },
                    }
                }
                i = i + 1;
            }
            assert(cs.subrange(0, cs.len() as int) == cs);
            Ok(Term::And(And { clauses }))
        },
        Rule::Or => {
            let mut clauses: Vec<Term> = Vec::new();
            let mut i: usize = 0;
            while i < n.children.len()
                invariant
                    cs == n.children@,
                    n.rule == Rule::Or,
                    term_shaped(*n),
                    i <= cs.len(),
                    clauses@.len() == i,
                    forall|j: int| 0 <= j < i ==> term_matches(#[trigger] cs[j], clauses@[j]),
                    forall|j: int| 0 <= j < i ==> literals_read(#[trigger] cs[j]),
                decreases cs.len() - i,
            {
                assert(term_shaped(cs[i as int]));
                match to_term(&n.children[i]) {
                    Ok(t) => {
                        clauses.push(t);
                    },
                    Err(e) => {
                        return Err(e);
                    },
                }
                i = i + 1;
            }
            Ok(Term::Or(Or { clauses }))
        },
        Rule::AttrGet => match to_term(&n.children[0]) {
            Ok(target) => {
                let attr = id_of(&n.children[1]);
                Ok(Term::AttrGet(Box::new(AttrGet { target, attr })))
            },
            Err(e) => Err(e),
        },
        Rule::Param => Ok(Term::Param(Param { name: id_of(&n.children[0]) })),
        Rule::FlagsGet => match to_term(&n.children[0]) {
            Ok(target) => {
                let flags_type = id_of(&n.children[1]);
                let field = id_of(&n.children[2]);
                Ok(Term::FlagsGet(Box::new(FlagsGet { target, flags_type, field })))
            },
            Err(e) => Err(e),
        },
        Rule::IntAdd => match to_term(&n.children[0]) {
            Ok(lhs) => match to_term(&n.children[1]) {
                Ok(rhs) => Ok(Term::IntAdd(Box::new(IntAdd { lhs, rhs }))),
                Err(e) => Err(e),
            },
            Err(e) => Err(e),
        },
        Rule::IntLe => match to_term(&n.children[0]) {
            Ok(lhs) => match to_term(&n.children[1]) {
                Ok(rhs) => Ok(Term::IntLe(Box::new(IntLe { lhs, rhs }))),
                Err(e) => Err(e),
            },
            Err(e) => Err(e),
        },
        Rule::ValueEq => match to_term(&n.children[0]) {
            Ok(lhs) => match to_term(&n.children[1]) {
                Ok(rhs) => Ok(Term::ValueEq(Box::new(ValueEq { lhs, rhs }))),
                Err(e) => Err(e),
            },
            Err(e) => Err(e),
        },
        Rule::NumLit => match parse_bigint(n.text.as_str()) {
            Some(b) => Ok(Term::IntConst(b)),
            None => Err(SpecError::BadInteger),
        },
        Rule::VariantConst => {
            let ty = id_of(&n.children[0]);
            let case = id_of(&n.children[1]);
            if n.children.len() >= 3 {
                match to_term(&n.children[2]) {
                    Ok(p) => Ok(Term::VariantConst(Box::new(VariantConst { ty, case, payload: Some(p) }))),
                    Err(e) => Err(e),
                }
            } else {
                Ok(Term::VariantConst(Box::new(VariantConst { ty, case, payload: None })))
            }
        },
        _ => {
            assert(false);
            Err(SpecError::BadInteger)
        },
    }
}


/// The types of a spec, and the names it gives them with their positions.
pub type SpecTypes = (Seq<WazziType>, Seq<(String, usize)>);

/// The types of a spec and their names.
pub open spec fn types_of(spec: Spec) -> SpecTypes {
    (spec.types@, spec.types_map@)
}

/// Whether every name of the spec's map stands for one of its types.
pub open spec fn map_ok(spec: SpecTypes) -> bool {
    forall|k: int| 0 <= k < spec.1.len() ==> (#[trigger] spec.1[k]).1 < spec.0.len()
}

/// The type that the spec gives the name `name`, if it gives it one.
pub open spec fn named(spec: SpecTypes, name: Seq<char>) -> Option<WazziType> {
    let k = first_named(spec.1, name);
    if 0 <= k < spec.1.len() && spec.1[k].1 < spec.0.len() {
        Some(spec.0[spec.1[k].1 as int])
    } else {
        None
    }
}

/// The integer representation that a rule names, if it names one.
pub open spec fn int_repr_of(r: Rule) -> Option<IntRepr> {
    match r {
        Rule::U8 => Some(IntRepr::U8),
        Rule::U16 => Some(IntRepr::U16),
        Rule::U32 => Some(IntRepr::U32),
        Rule::U64 => Some(IntRepr::U64),
        _ => None,
    }
}

/// Whether a node of a list of names is neither an identifier nor a
/// comment.
pub open spec fn is_bad_item(n: WitxNode) -> bool {
    n.rule != Rule::Id && n.rule != Rule::Comment
}

/// The names of the identifiers among `items`, in order, comments left out.
pub open spec fn id_names(items: Seq<WitxNode>) -> Seq<Seq<char>>
    decreases items.len(),
{
    if items.len() == 0 {
        Seq::empty()
    } else {
        let rest = id_names(items.drop_last());
        if items.last().rule == Rule::Id {
            rest.push(id_name(items.last()))
        } else {
            rest
        }
    }
}

/// The nodes of a list after its first.
pub open spec fn items_of(p: WitxNode) -> Seq<WitxNode> {
    p.children@.subrange(1, p.children@.len() as int)
}

/// The smaller of two integers.
pub open spec fn min_of(a: int, b: int) -> int {
    if a <= b {
        a
    } else {
        b
    }
}

/// The cases that a union reads from its first `m` items, each paired with
/// the case of its tag at the same position: an identifier names the
/// payload's type, a comment is passed over (its case with it), anything
/// else, or a type that the spec does not have, is an error.
pub open spec fn union_prefix(spec: SpecTypes, items: Seq<WitxNode>, tcases: Seq<VariantCaseType>, m: int) -> Result<
    Seq<(String, WazziType)>,
    SpecError,
>
    decreases m,
{
    if m <= 0 {
        Ok(Seq::empty())
    } else {
        match union_prefix(spec, items, tcases, m - 1) {
            Err(e) => Err(e),
            Ok(acc) => {
                let it = items[m - 1];
                if it.rule == Rule::Id {
                    match named(spec, id_name(it)) {
                        Some(t) => Ok(acc.push((tcases[m - 1].name, t))),
                        None => Err(SpecError::UnknownType),
                    }
                } else if it.rule == Rule::Comment {
                    Ok(acc)
                } else {
                    Err(SpecError::UnexpectedField)
                }
            },
        }
    }
}

/// Whether the identifiers of a list of names that are read, those before
/// its first item that is neither an identifier nor a comment, are
/// identifiers.
pub open spec fn names_shaped(items: Seq<WitxNode>) -> bool {
    forall|i: int|
        0 <= i < items.len() && (forall|j: int| 0 <= j < i ==> !is_bad_item(#[trigger] items[j])) && (#[trigger] items[i]).rule
            == Rule::Id ==> is_id(items[i])
}

/// Whether the identifiers of a union that are read, those paired with a
/// case of its tag before the first error, are identifiers.
pub open spec fn union_shaped(spec: SpecTypes, items: Seq<WitxNode>, tcases: Seq<VariantCaseType>) -> bool {
    forall|j: int|
        0 <= j < min_of(items.len() as int, tcases.len() as int) && union_prefix(spec, items, tcases, j) is Ok
            && (#[trigger] items[j]).rule == Rule::Id ==> is_id(items[j])
}

/// The error that reading a type node meets first, if any.
pub open spec fn type_error(spec: SpecTypes, n: WitxNode) -> Option<SpecError>
    decreases n,
{
    if n.children@.len() >= 1 {
        wasi_error(spec, n.children@[0])
    } else {
        None
    }
}

/// The error that reading the node of a type's kind meets first, if any.
pub open spec fn wasi_error(spec: SpecTypes, p: WitxNode) -> Option<SpecError>
    decreases p,
{
    let cs = p.children@;
    match p.rule {
        Rule::S64 | Rule::U8 | Rule::U16 | Rule::U32 | Rule::U64 | Rule::Handle | Rule::String => None,
        Rule::Flags | Rule::Enum => if exists|i: int| 1 <= i < cs.len() && is_bad_item(#[trigger] cs[i]) {
            Some(SpecError::UnexpectedField)
        } else if cs.len() >= 1 && cs[0].children@.len() >= 1 && int_repr_of(cs[0].children@[0].rule) is Some {
            None
        } else {
            Some(SpecError::UnknownIntRepr)
        },
        Rule::Union => if cs.len() >= 1 {
            match named(spec, id_name(cs[0])) {
                None => Some(SpecError::UnknownType),
                Some(t) => match t.wasi {
                    WasiType::Variant(v) => match union_prefix(
                        spec,
                        items_of(p),
                        v.cases@,
                        min_of(cs.len() - 1, v.cases@.len() as int),
                    ) {
                        Err(e) => Some(e),
                        Ok(_) => None,
                    },
                    _ => None,
                },
            }
        } else {
            None
        },
        Rule::Expected => if cs.len() >= 2 {
            match tref_error(spec, cs[0]) {
                Some(e) => Some(e),
                None => tref_error(spec, cs[1]),
            }
        } else {
            None
        },
        Rule::Record => members_error(spec, cs),
        Rule::List => if cs.len() >= 1 {
            tref_error(spec, cs[0])
        } else {
            None
        },
        _ => Some(SpecError::UnexpectedType),
    }
}

/// The error that reading the members of a record meets first, if any.
pub open spec fn members_error(spec: SpecTypes, items: Seq<WitxNode>) -> Option<SpecError>
    decreases items,
{
    if items.len() == 0 {
        None
    } else {
        match members_error(spec, items.subrange(0, items.len() - 1)) {
            Some(e) => Some(e),
            None => {
                let f = items[items.len() - 1];
                if f.rule == Rule::Comment {
                    None
                } else if f.rule == Rule::RecordField {
                    if f.children@.len() >= 2 {
                        tref_error(spec, f.children@[1])
                    } else {
                        None
                    }
                } else {
                    Some(SpecError::UnexpectedField)
                }
            },
        }
    }
}

/// The error that reading a type reference meets, if any.
pub open spec fn tref_error(spec: SpecTypes, t: WitxNode) -> Option<SpecError>
    decreases t,
{
    if t.children@.len() >= 1 {
        let c = t.children@[0];
        if c.rule == Rule::Id {
            if named(spec, id_name(c)) is None {
                Some(SpecError::UnknownType)
            } else {
                None
            }
        } else {
            type_error(spec, c)
        }
    } else {
        None
    }
}

/// Whether a type node has the shape that reading it takes, so far as it is
/// read.
pub open spec fn type_shaped(spec: SpecTypes, n: WitxNode) -> bool
    decreases n,
{
    n.children@.len() >= 1 && wasi_shaped(spec, n.children@[0])
}

/// Whether the node of a type's kind has the shape that reading it takes,
/// so far as it is read.
pub open spec fn wasi_shaped(spec: SpecTypes, p: WitxNode) -> bool
    decreases p,
{
    let cs = p.children@;
    match p.rule {
        Rule::Flags | Rule::Enum => cs.len() >= 1 && cs[0].rule == Rule::IntRepr && cs[0].children@.len() >= 1
            && names_shaped(items_of(p)),
        Rule::Union => cs.len() >= 1 && cs[0].rule == Rule::Id && is_id(cs[0]) && (named(spec, id_name(cs[0])) matches Some(
            t,
        ) ==> (t.wasi matches WasiType::Variant(v) && union_shaped(spec, items_of(p), v.cases@))),
        Rule::Expected => cs.len() >= 2 && tref_shaped(spec, cs[0]) && (tref_error(spec, cs[0]) is None ==> tref_shaped(
            spec,
            cs[1],
        )),
        Rule::Record => members_shaped(spec, cs),
        Rule::List => cs.len() >= 1 && tref_shaped(spec, cs[0]),
        _ => true,
    }
}

/// Whether the members of a record have the shape that reading them takes,
/// so far as they are read: up to the first error.
pub open spec fn members_shaped(spec: SpecTypes, items: Seq<WitxNode>) -> bool
    decreases items,
{
    forall|i: int|
        0 <= i < items.len() && members_error(spec, items.subrange(0, i)) is None && (#[trigger] items[i]).rule
            == Rule::RecordField ==> field_shaped(spec, items[i])
}

/// Whether a record member has the shape that reading it takes: its name,
/// then a type reference.
pub open spec fn field_shaped(spec: SpecTypes, f: WitxNode) -> bool
    decreases f,
{
    f.children@.len() >= 2 && f.children@[0].rule == Rule::Id && is_id(f.children@[0]) && tref_shaped(
        spec,
        f.children@[1],
    )
}

/// Whether a type reference has the shape that reading it takes: an
/// identifier, or a type written out.
pub open spec fn tref_shaped(spec: SpecTypes, t: WitxNode) -> bool
    decreases t,
{
    t.rule == Rule::TypeRef && t.children@.len() >= 1 && ((t.children@[0].rule == Rule::Id && is_id(t.children@[0])) || (
    t.children@[0].rule == Rule::Type && type_shaped(spec, t.children@[0])))
}

/// Whether `w` is what a type node reads as.
pub open spec fn type_wasi_read(spec: SpecTypes, n: WitxNode, w: WasiType) -> bool
    decreases n,
{
    n.children@.len() >= 1 && wasi_read(spec, n.children@[0], w)
}

/// Whether `w` is what the node of a type's kind reads as: the primitive
/// of its rule; flags or an enum with the names of its identifiers, in
/// order, and the representation it names; a union with the tag's
/// representation and, for each identifier, the tag's case at its position
/// with the named type as payload; the two cases of an expected type; a
/// record of its members; a list of its item type.
pub open spec fn wasi_read(spec: SpecTypes, p: WitxNode, w: WasiType) -> bool
    decreases p,
{
    let cs = p.children@;
    match p.rule {
        Rule::S64 => w == WasiType::S64,
        Rule::U8 => w == WasiType::U8,
        Rule::U16 => w == WasiType::U16,
        Rule::U32 => w == WasiType::U32,
        Rule::U64 => w == WasiType::U64,
        Rule::Handle => w == WasiType::Handle,
        Rule::String => w == WasiType::String,
        Rule::Flags => cs.len() >= 1 && cs[0].children@.len() >= 1 && (w matches WasiType::Flags(f) && Some(f.repr)
            == int_repr_of(cs[0].children@[0].rule) && f.fields@.len() == id_names(items_of(p)).len() && forall|i: int|
            0 <= i < f.fields@.len() ==> (#[trigger] f.fields@[i])@ == id_names(items_of(p))[i]),
        Rule::Enum => cs.len() >= 1 && cs[0].children@.len() >= 1 && (w matches WasiType::Variant(v) && Some(v.tag_repr)
            == int_repr_of(cs[0].children@[0].rule) && v.cases@.len() == id_names(items_of(p)).len() && forall|i: int|
            0 <= i < v.cases@.len() ==> (#[trigger] v.cases@[i]).name@ == id_names(items_of(p))[i] && v.cases@[i].payload is None),
        Rule::Union => cs.len() >= 1 && match named(spec, id_name(cs[0])) {
            Some(t) => match t.wasi {
                WasiType::Variant(tv) => match union_prefix(
                    spec,
                    items_of(p),
                    tv.cases@,
                    min_of(cs.len() - 1, tv.cases@.len() as int),
                ) {
                    Ok(out) => w matches WasiType::Variant(v) && v.tag_repr == tv.tag_repr && v.cases@.len() == out.len()
                        && forall|i: int|
                        0 <= i < out.len() ==> (#[trigger] v.cases@[i]).name == out[i].0 && (v.cases@[i].payload matches Some(
                            q,
                        ) && same_wazzi(out[i].1, q)),
                    Err(_) => false,
                },
                _ => false,
            },
            None => false,
        },
        Rule::Expected => cs.len() >= 2 && (w matches WasiType::Variant(v) && v.tag_repr == IntRepr::U8 && v.cases@.len()
            == 2 && v.cases@[0].name@ == "expected"@ && v.cases@[1].name@ == "error"@ && (v.cases@[0].payload matches Some(
            a,
        ) && tref_read(spec, cs[0], a)) && (v.cases@[1].payload matches Some(b) && tref_read(spec, cs[1], b))),
        Rule::Record => w matches WasiType::Record(r) && members_read(spec, cs, r.members@),
        Rule::List => cs.len() >= 1 && (w matches WasiType::List(l) && tref_read(spec, cs[0], l.item)),
        _ => false,
    }
}

/// Whether `ms` are what the members of a record read as, comments passed
/// over.
pub open spec fn members_read(spec: SpecTypes, items: Seq<WitxNode>, ms: Seq<RecordMemberType>) -> bool
    decreases items,
{
    if items.len() == 0 {
        ms.len() == 0
    } else {
        let f = items[items.len() - 1];
        if f.rule == Rule::Comment {
            members_read(spec, items.subrange(0, items.len() - 1), ms)
        } else {
            &&& ms.len() > 0
            &&& f.children@.len() >= 2
            &&& ms[ms.len() - 1].name@ == id_name(f.children@[0])
            &&& tref_read(spec, f.children@[1], ms[ms.len() - 1].ty)
            &&& members_read(spec, items.subrange(0, items.len() - 1), ms.subrange(0, ms.len() - 1))
        }
    }
}

/// Whether `ty` is what a type reference reads as: a copy of the named
/// type, or the type written out, without name or attributes.
pub open spec fn tref_read(spec: SpecTypes, t: WitxNode, ty: WazziType) -> bool
    decreases t,
{
    t.children@.len() >= 1 && if t.children@[0].rule == Rule::Id {
        named(spec, id_name(t.children@[0])) matches Some(x) && same_wazzi(x, ty)
    } else {
        ty.name is None && ty.attributes@.len() == 0 && type_wasi_read(spec, t.children@[0], ty.wasi)
    }
}

/// Whether the annotations are attributes: `@attribute`, the attribute's
/// name and the name of a type the spec has.
pub open spec fn annotations_shaped(spec: SpecTypes, annots: Seq<WitxNode>) -> bool {
    forall|i: int|
        0 <= i < annots.len() ==> {
            let a = #[trigger] annots[i];
            &&& a.rule == Rule::AnnotationExpr
            &&& a.children@.len() >= 3
            &&& a.children@[0].text@ == "@attribute"@
            &&& is_id(a.children@[1])
            &&& is_id(a.children@[2])
            &&& named(spec, id_name(a.children@[2])) is Some
        }
}

/// Whether `attrs` are the attributes that the annotations give: each its
/// name and a copy of the named type.
pub open spec fn attributes_read(spec: SpecTypes, annots: Seq<WitxNode>, attrs: Seq<(String, WazziType)>) -> bool {
    &&& attrs.len() == annots.len()
    &&& forall|i: int|
        0 <= i < annots.len() ==> (#[trigger] attrs[i]).0@ == id_name(annots[i].children@[1]) && (named(
            spec,
            id_name(annots[i].children@[2]),
        ) matches Some(x) && same_wazzi(x, attrs[i].1))
}

/// Once the cases of a union meet an error, reading more of them keeps it.
proof fn lemma_union_prefix_err(spec: SpecTypes, items: Seq<WitxNode>, tcases: Seq<VariantCaseType>, k: int, m: int)
    requires
        0 <= k <= m,
        union_prefix(spec, items, tcases, k) is Err,
    ensures
        union_prefix(spec, items, tcases, m) == union_prefix(spec, items, tcases, k),
    decreases m - k,
{
    if k < m {
        lemma_union_prefix_err(spec, items, tcases, k, m - 1);
    }
}

/// Once the members of a record meet an error, reading more of them keeps
/// it.
proof fn lemma_members_error_prefix(spec: SpecTypes, items: Seq<WitxNode>, k: int)
    requires
        0 <= k <= items.len(),
        members_error(spec, items.subrange(0, k)) is Some,
    ensures
        members_error(spec, items) == members_error(spec, items.subrange(0, k)),
    decreases items.len() - k,
{
    if k < items.len() {
        let init = items.subrange(0, items.len() - 1);
        assert(init.subrange(0, k) == items.subrange(0, k));
        lemma_members_error_prefix(spec, init, k);
    } else {
        assert(items.subrange(0, k) == items);
    }
}

/// A copy of the type that the spec gives the name `name`, if it gives it
/// one.
fn lookup(spec: &Spec, name: &String) -> (r: Option<WazziType>)
    requires
        map_ok(types_of(*spec)),
    ensures
        match named(types_of(*spec), name@) {
            Some(x) => r matches Some(t) && same_wazzi(x, t),
            None => r is None,
        },
{
    match find_named(&spec.types_map, name) {
        Some(k) => {
            let i = spec.types_map[k].1;
            Some(spec.types[i].duplicate())
        },
        None => None,
    }
}

/// The integer representation that a node names.
fn int_repr(n: &WitxNode) -> (r: Result<IntRepr, SpecError>)
    ensures
        match int_repr_of(n.rule) {
            Some(x) => r == Ok::<IntRepr, SpecError>(x),
            None => r == Err::<IntRepr, SpecError>(SpecError::UnknownIntRepr),
        },
{
    match n.rule {
        Rule::U8 => Ok(IntRepr::U8),
        Rule::U16 => Ok(IntRepr::U16),
        Rule::U32 => Ok(IntRepr::U32),
        Rule::U64 => Ok(IntRepr::U64),
        _ => Err(SpecError::UnknownIntRepr),
    }
}

/// The names of the identifiers after the first node of a flags' or enum's
/// node; fails with `UnexpectedField` exactly where one of those nodes is
/// neither an identifier nor a comment.
pub(crate) fn read_names(p: &WitxNode) -> (r: Result<Vec<String>, SpecError>)
    requires
        p.children@.len() >= 1,
        names_shaped(items_of(*p)),
    ensures
        r is Err <==> exists|i: int| 1 <= i < p.children@.len() && is_bad_item(#[trigger] p.children@[i]),
        r matches Err(e) ==> e == SpecError::UnexpectedField,
        r matches Ok(v) ==> v@.len() == id_names(items_of(*p)).len() && forall|i: int|
            0 <= i < v@.len() ==> (#[trigger] v@[i])@ == id_names(items_of(*p))[i],
{
    let ghost items = items_of(*p);
    let mut names: Vec<String> = Vec::new();
    let n = p.children.len() - 1;
    let mut k: usize = 0;
    while k < n
        invariant
            n == items.len(),
            items == items_of(*p),
            names_shaped(items),
            k <= items.len(),
            items.len() + 1 == p.children@.len(),
            forall|j: int| 0 <= j < k ==> !is_bad_item(#[trigger] items[j]),
            names@.len() == id_names(items.subrange(0, k as int)).len(),
            forall|i: int| 0 <= i < names@.len() ==> (#[trigger] names@[i])@ == id_names(items.subrange(0, k as int))[i],
        decreases items.len() - k,
    {
        let item = &p.children[k + 1];
        assert(items[k as int] == *item);
        let ghost before = names@;
        assert(items.subrange(0, k + 1).drop_last() == items.subrange(0, k as int));
        if item.rule == Rule::Id {
            let name = id_of(item);
            names.push(name);
            assert forall|i: int| 0 <= i < names@.len() implies (#[trigger] names@[i])@ == id_names(
                items.subrange(0, k + 1),
            )[i] by {
                if i < before.len() {
                    assert(names@[i] == before[i]);
                }
            }
        } else if item.rule == Rule::Comment {
        } else {
            assert(is_bad_item(p.children@[k + 1]));
            return Err(SpecError::UnexpectedField);
        }
        k = k + 1;
    }
    proof {
        assert(items.subrange(0, k as int) == items);
        assert forall|i: int| 1 <= i < p.children@.len() implies !is_bad_item(#[trigger] p.children@[i]) by {
            assert(p.children@[i] == items[i - 1]);
        }
    }
    Ok(names)
}

/// Reads a type node: the type of its kind, with the given name and the
/// attributes that the annotations give. It fails with the first error that
/// reading meets: an unexpected type or field, a type the spec does not
/// have, an unknown integer representation.
pub fn preview1_type(spec: &Spec, n: &WitxNode, name: Option<String>, annotations: &[WitxNode]) -> (r: Result<
    WazziType,
    SpecError,
>)
    requires
        map_ok(types_of(*spec)),
        type_shaped(types_of(*spec), *n),
        type_error(types_of(*spec), *n) is None ==> annotations_shaped(types_of(*spec), annotations@),
    ensures
        match type_error(types_of(*spec), *n) {
            Some(e) => r == Err::<WazziType, SpecError>(e),
            None => r matches Ok(t) && t.name == name && type_wasi_read(types_of(*spec), *n, t.wasi) && attributes_read(
                types_of(*spec),
                annotations@,
                t.attributes@,
            ),
        },
{
    let wasi = match read_wasi(spec, &n.children[0]) {
        Ok(w) => w,
        Err(e) => {
            return Err(e);
        },
    };
    let mut attributes: Vec<(String, WazziType)> = Vec::new();
    let mut i: usize = 0;
    while i < annotations.len()
        invariant
            map_ok(types_of(*spec)),
            annotations_shaped(types_of(*spec), annotations@),
            i <= annotations@.len(),
            attributes@.len() == i,
            forall|k: int|
                0 <= k < i ==> (#[trigger] attributes@[k]).0@ == id_name(annotations@[k].children@[1]) && (named(
                    types_of(*spec),
                    id_name(annotations@[k].children@[2]),
                ) matches Some(x) && same_wazzi(x, attributes@[k].1)),
        decreases annotations@.len() - i,
    {
        let a = &annotations[i];
        assert(annotations@[i as int] == *a);
        let attr = id_of(&a.children[1]);
        let target_name = id_of(&a.children[2]);
        let ty = match lookup(spec, &target_name) {
            Some(t) => t,
            None => {
                assert(false);
                return Err(SpecError::UnknownType);
            },
        };
        attributes.push((attr, ty));
        i = i + 1;
    }
    Ok(WazziType { name, wasi, attributes })
}

/// Reads a type node written out where a type is referred to: without name
/// or attributes.
fn read_type(spec: &Spec, n: &WitxNode) -> (r: Result<WazziType, SpecError>)
    requires
        map_ok(types_of(*spec)),
        type_shaped(types_of(*spec), *n),
    ensures
        match type_error(types_of(*spec), *n) {
            Some(e) => r == Err::<WazziType, SpecError>(e),
            None => r matches Ok(t) && t.name is None && t.attributes@.len() == 0 && type_wasi_read(types_of(*spec), *n, t.wasi),
        },
    decreases n,
{
    match read_wasi(spec, &n.children[0]) {
        Ok(wasi) => Ok(WazziType { name: None, wasi, attributes: Vec::new() }),
        Err(e) => Err(e),
    }
}

/// Reads a type reference: a copy of the named type, or the type written
/// out.
fn read_tref(spec: &Spec, t: &WitxNode) -> (r: Result<WazziType, SpecError>)
    requires
        map_ok(types_of(*spec)),
        tref_shaped(types_of(*spec), *t),
    ensures
        match tref_error(types_of(*spec), *t) {
            Some(e) => r == Err::<WazziType, SpecError>(e),
            None => r matches Ok(ty) && tref_read(types_of(*spec), *t, ty),
        },
    decreases t,
{
    let c = &t.children[0];
    if c.rule == Rule::Id {
        let name = id_of(c);
        match lookup(spec, &name) {
            Some(ty) => Ok(ty),
            None => Err(SpecError::UnknownType),
        }
    } else {
        read_type(spec, c)
    }
}

/// Reads a record member: its name and the type it refers to.
fn read_field(spec: &Spec, f: &WitxNode) -> (r: Result<RecordMemberType, SpecError>)
    requires
        map_ok(types_of(*spec)),
        field_shaped(types_of(*spec), *f),
    ensures
        match tref_error(types_of(*spec), f.children@[1]) {
            Some(e) => r == Err::<RecordMemberType, SpecError>(e),
            None => r matches Ok(m) && m.name@ == id_name(f.children@[0]) && tref_read(types_of(*spec), f.children@[1], m.ty),
        },
    decreases f,
{
    let name = id_of(&f.children[0]);
    match read_tref(spec, &f.children[1]) {
        Ok(ty) => Ok(RecordMemberType { name, ty }),
        Err(e) => Err(e),
    }
}

/// Reads the members of a record, comments passed over.
fn read_members(spec: &Spec, items: &Vec<WitxNode>) -> (r: Result<Vec<RecordMemberType>, SpecError>)
    requires
        map_ok(types_of(*spec)),
        members_shaped(types_of(*spec), items@),
    ensures
        match members_error(types_of(*spec), items@) {
            Some(e) => r == Err::<Vec<RecordMemberType>, SpecError>(e),
            None => r matches Ok(ms) && members_read(types_of(*spec), items@, ms@),
        },
    decreases items,
{
    let mut ms: Vec<RecordMemberType> = Vec::new();
    let mut i: usize = 0;
    while i < items.len()
        invariant
            map_ok(types_of(*spec)),
            members_shaped(types_of(*spec), items@),
            i <= items@.len(),
            members_error(types_of(*spec), items@.subrange(0, i as int)) is None,
            members_read(types_of(*spec), items@.subrange(0, i as int), ms@),
        decreases items@.len() - i,
    {
        let f = &items[i];
        let ghost before = ms@;
        let ghost next = items@.subrange(0, i + 1);
        assert(next.subrange(0, i as int) == items@.subrange(0, i as int));
        assert(next[i as int] == *f);
        if f.rule == Rule::Comment {
        } else if f.rule == Rule::RecordField {
            assert(field_shaped(types_of(*spec), items@[i as int]));
            match read_field(spec, f) {
                Ok(m) => {
                    ms.push(m);
                    assert(ms@.subrange(0, ms@.len() - 1) == before);
                },
                Err(e) => {
                    proof {
                        lemma_members_error_prefix(types_of(*spec), items@, i + 1);
                    }
                    return Err(e);
                },
            }
        } else {
            proof {
                lemma_members_error_prefix(types_of(*spec), items@, i + 1);
            }
            return Err(SpecError::UnexpectedField);
        }
        i = i + 1;
    }
    assert(items@.subrange(0, items@.len() as int) == items@);
    Ok(ms)
}

/// Reads the node of a type's kind.
fn read_wasi(spec: &Spec, p: &WitxNode) -> (r: Result<WasiType, SpecError>)
    requires
        map_ok(types_of(*spec)),
        wasi_shaped(types_of(*spec), *p),
    ensures
        match wasi_error(types_of(*spec), *p) {
            Some(e) => r == Err::<WasiType, SpecError>(e),
            None => r matches Ok(w) && wasi_read(types_of(*spec), *p, w),
        },
    decreases p,
{
    match p.rule {
        Rule::S64 => Ok(WasiType::S64),
        Rule::U8 => Ok(WasiType::U8),
        Rule::U16 => Ok(WasiType::U16),
        Rule::U32 => Ok(WasiType::U32),
        Rule::U64 => Ok(WasiType::U64),
        Rule::Handle => Ok(WasiType::Handle),
        Rule::String => Ok(WasiType::String),
        Rule::Flags => {
            let fields = match read_names(p) {
                Ok(v) => v,
                Err(e) => {
                    return Err(e);
                },
            };
            match int_repr(&p.children[0].children[0]) {
                Ok(repr) => Ok(WasiType::Flags(FlagsType { repr, fields })),
                Err(e) => Err(e),
            }
        },
        Rule::Enum => {
            let names = match read_names(p) {
                Ok(v) => v,
                Err(e) => {
                    return Err(e);
                },
            };
            let tag_repr = match int_repr(&p.children[0].children[0]) {
                Ok(x) => x,
                Err(e) => {
                    return Err(e);
                },
            };
            let mut cases: Vec<VariantCaseType> = Vec::new();
            let mut i: usize = 0;
            while i < names.len()
                invariant
                    i <= names@.len(),
                    cases@.len() == i,
                    forall|k: int| 0 <= k < i ==> (#[trigger] cases@[k]).name == names@[k] && cases@[k].payload is None,
                decreases names@.len() - i,
            {
                cases.push(VariantCaseType { name: names[i].clone(), payload: None });
                i = i + 1;
            }
            Ok(WasiType::Variant(VariantType { tag_repr, cases }))
        },
        Rule::Union => read_union(spec, p),
        Rule::Expected => {
            let expected = match read_tref(spec, &p.children[0]) {
                Ok(t) => t,
                Err(e) => {
                    return Err(e);
                },
            };
            let error = match read_tref(spec, &p.children[1]) {
                Ok(t) => t,
                Err(e) => {
                    return Err(e);
                },
            };
            proof {
                reveal_strlit("expected");
                reveal_strlit("error");
            }
            let cases = vec![
                VariantCaseType { name: "expected".to_owned(), payload: Some(expected) },
                VariantCaseType { name: "error".to_owned(), payload: Some(error) },
            ];
            Ok(WasiType::Variant(VariantType { tag_repr: IntRepr::U8, cases }))
        },
        Rule::Record => match read_members(spec, &p.children) {
            Ok(members) => Ok(WasiType::Record(RecordType { members })),
            Err(e) => Err(e),
        },
        Rule::List => match read_tref(spec, &p.children[0]) {
            Ok(item) => Ok(WasiType::List(Box::new(ListType { item }))),
            Err(e) => Err(e),
        },
        _ => Err(SpecError::UnexpectedType),
    }
}

/// Reads a union: the tag's representation and, for each identifier paired
/// with a case of the tag, that case's name with the named type as its
/// payload.
fn read_union(spec: &Spec, p: &WitxNode) -> (r: Result<WasiType, SpecError>)
    requires
        map_ok(types_of(*spec)),
        p.rule == Rule::Union,
        wasi_shaped(types_of(*spec), *p),
    ensures
        match wasi_error(types_of(*spec), *p) {
            Some(e) => r == Err::<WasiType, SpecError>(e),
            None => r matches Ok(w) && wasi_read(types_of(*spec), *p, w),
        },
{
    let ghost items = items_of(*p);
    let tag_name = id_of(&p.children[0]);
    let k = match find_named(&spec.types_map, &tag_name) {
        Some(k) => k,
        None => {
            return Err(SpecError::UnknownType);
        },
    };
    let ti = spec.types_map[k].1;
    let tag = match &spec.types[ti].wasi {
        WasiType::Variant(v) => v,
        _ => {
            assert(false);
            return Err(SpecError::UnexpectedType);
        },
    };
    let ghost tcases = tag.cases@;
    assert(named(types_of(*spec), id_name(p.children@[0])) == Some(spec.types@[ti as int]));
    let m = if p.children.len() - 1 <= tag.cases.len() {
        p.children.len() - 1
    } else {
        tag.cases.len()
    };
    assert(m == min_of(p.children@.len() - 1, tcases.len() as int));
    let mut cases: Vec<VariantCaseType> = Vec::new();
    let mut j: usize = 0;
    while j < m
        invariant
            map_ok(types_of(*spec)),
            items == items_of(*p),
            tcases == tag.cases@,
            union_shaped(types_of(*spec), items, tcases),
            p.rule == Rule::Union,
            named(types_of(*spec), id_name(p.children@[0])) == Some(spec.types@[ti as int]),
            spec.types@[ti as int].wasi == WasiType::Variant(*tag),
            m == min_of(items.len() as int, tcases.len() as int),
            items.len() + 1 == p.children@.len(),
            j <= m,
            union_prefix(types_of(*spec), items, tcases, j as int) matches Ok(out) && cases@.len() == out.len() && forall|i: int|
                0 <= i < out.len() ==> (#[trigger] cases@[i]).name == out[i].0 && (cases@[i].payload matches Some(q)
                    && same_wazzi(out[i].1, q)),
        decreases m - j,
    {
        let item = &p.children[j + 1];
        assert(items[j as int] == *item);
        let ghost before = cases@;
        if item.rule == Rule::Id {
            let name = id_of(item);
            match lookup(spec, &name) {
                Some(t) => {
                    cases.push(VariantCaseType { name: tag.cases[j].name.clone(), payload: Some(t) });
                    proof {
                        let out = union_prefix(types_of(*spec), items, tcases, j as int)->Ok_0;
                        let out2 = union_prefix(types_of(*spec), items, tcases, j + 1)->Ok_0;
                        assert(out2 == out.push((tcases[j as int].name, named(types_of(*spec), id_name(items[j as int])).unwrap())));
                        assert forall|i: int| 0 <= i < out2.len() implies (#[trigger] cases@[i]).name == out2[i].0 && (
                        cases@[i].payload matches Some(q) && same_wazzi(out2[i].1, q)) by {
                            if i < out.len() {
                                assert(cases@[i] == before[i]);
                            }
                        }
                    }
                },
                None => {
                    proof {
                        lemma_union_prefix_err(types_of(*spec), items, tcases, j + 1, m as int);
                    }
                    return Err(SpecError::UnknownType);
                },
            }
        } else if item.rule == Rule::Comment {
        } else {
            proof {
                lemma_union_prefix_err(types_of(*spec), items, tcases, j + 1, m as int);
            }
            return Err(SpecError::UnexpectedField);
        }
        j = j + 1;
    }
    Ok(WasiType::Variant(VariantType { tag_repr: tag.tag_repr, cases }))
}

/// The position of the first case named `name`, or -1 where none is.
pub open spec fn first_case(cs: Seq<VariantCaseType>, name: Seq<char>) -> int
    decreases cs.len(),
{
    if cs.len() == 0 {
        -1
    } else if first_case(cs.drop_last(), name) >= 0 {
        first_case(cs.drop_last(), name)
    } else if cs.last().name@ == name {
        cs.len() - 1
    } else {
        -1
    }
}

/// Whether a node has the shape of an effect expression: an `i64` constant
/// with its literal, or a constant of a variant type of the spec, named with
/// one of its cases.
pub open spec fn expr_shaped(spec: SpecTypes, n: WitxNode) -> bool {
    let cs = n.children@;
    match n.rule {
        Rule::S64Const => cs.len() >= 1,
        Rule::VariantConst => {
            &&& cs.len() >= 2
            &&& is_id(cs[0])
            &&& is_id(cs[1])
            &&& named(spec, id_name(cs[0])) matches Some(t)
            &&& t.wasi matches WasiType::Variant(v)
            &&& first_case(v.cases@, id_name(cs[1])) >= 0
        },
        _ => false,
    }
}

/// Whether a node has the shape of an effect statement: an attribute set
/// with the resource's and the attribute's names and an expression.
pub open spec fn stmt_shaped(spec: SpecTypes, n: WitxNode) -> bool {
    &&& n.rule == Rule::AttrSet
    &&& n.children@.len() >= 3
    &&& is_id(n.children@[0])
    &&& is_id(n.children@[1])
    &&& expr_shaped(spec, n.children@[2])
}

/// Whether an effect expression reads without error: an `i64` literal
/// must be one.
pub open spec fn expr_reads(n: WitxNode) -> bool {
    n.rule == Rule::S64Const ==> i64_read(n.children@[0].text@) is Some
}

/// Whether `e` is what an effect expression reads as: the `i64` its literal
/// is, or the variant value of the first case of that name, without payload.
pub open spec fn expr_read(spec: SpecTypes, n: WitxNode, e: Expr) -> bool {
    let cs = n.children@;
    match n.rule {
        Rule::S64Const => i64_read(cs[0].text@) matches Some(x) && e == Expr::WasiValue(WasiValue::S64(x)),
        Rule::VariantConst => match named(spec, id_name(cs[0])) {
            Some(t) => match t.wasi {
                WasiType::Variant(v) => e matches Expr::WasiValue(WasiValue::Variant(b)) && b.case_idx == first_case(
                    v.cases@,
                    id_name(cs[1]),
                ) && b.payload is None,
                _ => false,
            },
            None => false,
        },
        _ => false,
    }
}

/// The position of the first case named `name`.
fn find_case(cs: &Vec<VariantCaseType>, name: &String) -> (r: usize)
    requires
        first_case(cs@, name@) >= 0,
    ensures
        r == first_case(cs@, name@),
{
    let mut k: usize = 0;
    while k < cs.len()
        invariant
            k <= cs@.len(),
            first_case(cs@.subrange(0, k as int), name@) == -1,
            first_case(cs@, name@) >= 0,
        decreases cs@.len() - k,
    {
        assert(cs@.subrange(0, k + 1).drop_last() == cs@.subrange(0, k as int));
        if cs[k].name == *name {
            proof {
                lemma_first_case_prefix(cs@, k + 1, name@);
            }
            return k;
        }
        k = k + 1;
    }
    assert(cs@.subrange(0, cs@.len() as int) == cs@);
    0
}

/// A case found in a prefix is found at the same place in the whole.
proof fn lemma_first_case_prefix(cs: Seq<VariantCaseType>, k: int, name: Seq<char>)
    requires
        0 <= k <= cs.len(),
        first_case(cs.subrange(0, k), name) >= 0,
    ensures
        first_case(cs, name) == first_case(cs.subrange(0, k), name),
    decreases cs.len() - k,
{
    if k < cs.len() {
        let init = cs.drop_last();
        assert(init.subrange(0, k) == cs.subrange(0, k));
        lemma_first_case_prefix(init, k, name);
    } else {
        assert(cs.subrange(0, k) == cs);
    }
}

/// Reads an effect expression: an `i64` constant, failing with
/// `BadInteger` where its literal is not one, or a variant constant.
fn to_expr(spec: &Spec, n: &WitxNode) -> (r: Result<Expr, SpecError>)
    requires
        map_ok(types_of(*spec)),
        expr_shaped(types_of(*spec), *n),
    ensures
        r is Ok <==> expr_reads(*n),
        r matches Ok(e) ==> expr_read(types_of(*spec), *n, e),
        r matches Err(x) ==> x == SpecError::BadInteger,
{
    if n.rule == Rule::S64Const {
        match parse_i64(n.children[0].text.as_str()) {
            Some(x) => Ok(Expr::WasiValue(WasiValue::S64(x))),
            None => Err(SpecError::BadInteger),
        }
    } else {
        let target = id_of(&n.children[0]);
        let case_name = id_of(&n.children[1]);
        let k = match find_named(&spec.types_map, &target) {
            Some(k) => k,
            None => {
                assert(false);
                return Err(SpecError::UnknownType);
            },
        };
        let i = spec.types_map[k].1;
        match &spec.types[i].wasi {
            WasiType::Variant(v) => {
                let case_idx = find_case(&v.cases, &case_name);
                Ok(Expr::WasiValue(WasiValue::Variant(Box::new(VariantValue { case_idx, payload: None }))))
            },
            _ => {
                assert(false);
                Err(SpecError::UnknownType)
            },
        }
    }
}

/// Reads an effect statement of an `@effects` annotation: setting an
/// attribute of a resource, both named, to the value of an expression. It
/// fails with `BadInteger` exactly where an `i64` literal is not one.
pub fn to_stmt(spec: &Spec, n: &WitxNode) -> (r: Result<Stmt, SpecError>)
    requires
        map_ok(types_of(*spec)),
        stmt_shaped(types_of(*spec), *n),
    ensures
        r is Ok <==> expr_reads(n.children@[2]),
        r matches Ok(Stmt::AttrSet(a)) ==> a.resource@ == id_name(n.children@[0]) && a.attr@ == id_name(
            n.children@[1],
        ) && expr_read(types_of(*spec), n.children@[2], a.value),
        r matches Err(x) ==> x == SpecError::BadInteger,
{
    let resource = id_of(&n.children[0]);
    let attr = id_of(&n.children[1]);
    match to_expr(spec, &n.children[2]) {
        Ok(value) => Ok(Stmt::AttrSet(AttrSet { resource, attr, value })),
        Err(e) => Err(e),
    }
}

/// Whether a node has the shape of a term of the main fuzzer's contracts:
/// each rule with the nodes that the reading takes from it, identifiers
/// where names are read.
pub open spec fn slang_shaped(n: WitxNode) -> bool
    decreases n,
{
    let cs = n.children@;
    match n.rule {
        Rule::Id => is_id(n),
        Rule::True | Rule::NumLit | Rule::String => true,
        Rule::Foldl => cs.len() >= 3 && slang_shaped(cs[0]) && slang_shaped(cs[1]) && slang_shaped(cs[2]),
        Rule::Lambda => cs.len() >= 1 && slang_shaped(cs[cs.len() - 1]) && forall|i: int|
            0 <= i < cs.len() - 1 ==> bound_shaped(#[trigger] cs[i]),
        Rule::MapOver | Rule::IntAdd | Rule::IntGt | Rule::IntLe | Rule::ValueEq | Rule::StrAt => cs.len() >= 2
            && slang_shaped(cs[0]) && slang_shaped(cs[1]),
        Rule::Not | Rule::IntConst | Rule::ListLen | Rule::U64Const => cs.len() >= 1 && slang_shaped(cs[0]),
        Rule::And => forall|i: int| 0 <= i < cs.len() && (#[trigger] cs[i]).rule != Rule::Comment ==> slang_shaped(cs[i]),
        Rule::Or => forall|i: int| 0 <= i < cs.len() ==> slang_shaped(#[trigger] cs[i]),
        Rule::RecordField | Rule::FlagsGet => cs.len() >= 2 && slang_shaped(cs[0]) && is_id(cs[1]),
        Rule::Param | Rule::Result | Rule::ResourceId => cs.len() >= 1 && is_id(cs[0]),
        Rule::VariantConst => cs.len() >= 2 && is_id(cs[0]) && is_id(cs[1]) && (cs.len() >= 3 ==> slang_shaped(cs[2])),
        Rule::NoNonExistentDirBacktrack => cs.len() >= 2 && is_id(cs[0]) && is_id(cs[1]),
        _ => false,
    }
}

/// Whether a node binds a name of a lambda: an identifier, then an
/// identifier naming a type of the spec, or `bool` or `int`.
pub open spec fn bound_shaped(b: WitxNode) -> bool {
    let cs = b.children@;
    &&& cs.len() >= 2
    &&& is_id(cs[0])
    &&& (cs[1].rule == Rule::Id && is_id(cs[1])) || cs[1].rule == Rule::Bool || cs[1].rule == Rule::Int
}

/// Whether every integer literal that reading a term meets is one.
pub open spec fn slang_literals_read(n: WitxNode) -> bool
    decreases n,
{
    let cs = n.children@;
    match n.rule {
        Rule::NumLit => bigint_text(n.text@),
        Rule::Foldl => cs.len() >= 3 ==> slang_literals_read(cs[0]) && slang_literals_read(cs[1]) && slang_literals_read(
            cs[2],
        ),
        Rule::Lambda => cs.len() >= 1 ==> slang_literals_read(cs[cs.len() - 1]),
        Rule::MapOver | Rule::IntAdd | Rule::IntGt | Rule::IntLe | Rule::ValueEq | Rule::StrAt => cs.len() >= 2
            ==> slang_literals_read(cs[0]) && slang_literals_read(cs[1]),
        Rule::Not | Rule::IntConst | Rule::ListLen | Rule::U64Const | Rule::RecordField | Rule::FlagsGet => cs.len()
            >= 1 ==> slang_literals_read(cs[0]),
        Rule::And => forall|i: int|
            0 <= i < cs.len() && (#[trigger] cs[i]).rule != Rule::Comment ==> slang_literals_read(cs[i]),
        Rule::Or => forall|i: int| 0 <= i < cs.len() ==> slang_literals_read(#[trigger] cs[i]),
        Rule::VariantConst => cs.len() >= 3 ==> slang_literals_read(cs[2]),
        _ => true,
    }
}

/// The texts of nodes, one after the other.
pub open spec fn texts(cs: Seq<WitxNode>) -> Seq<char>
    decreases cs.len(),
{
    if cs.len() == 0 {
        Seq::empty()
    } else {
        texts(cs.drop_last()) + cs.last().text@
    }
}

/// Whether `b` is the name a lambda binds, with its type.
pub open spec fn bound_matches(n: WitxNode, b: slang::Bound) -> bool {
    let cs = n.children@;
    &&& b.name@ == id_name(cs[0])
    &&& if cs[1].rule == Rule::Id {
        b.tref matches slang::TypeRef::Wasi(t) && t@ == id_name(cs[1])
    } else if cs[1].rule == Rule::Bool {
        b.tref == slang::TypeRef::Wazzi(slang::WazziType::Bool)
    } else {
        b.tref == slang::TypeRef::Wazzi(slang::WazziType::Int)
    }
}

/// Whether `t` is the term that a node reads as: the operator of its rule
/// over the terms of the nodes inside it, names read from identifiers, a
/// string's text, and the integer that a literal's text is.
pub open spec fn slang_term_matches(n: WitxNode, t: slang::Term) -> bool
    decreases n,
{
    let cs = n.children@;
    match n.rule {
        Rule::Id => t matches slang::Term::Binding(x) && x@ == id_name(n),
        Rule::True => t == slang::Term::True,
        Rule::String => t matches slang::Term::String(x) && x@ == texts(cs),
        Rule::NumLit => t matches slang::Term::IntConst(b) && bigint_read(n.text@) == Some(b),
        Rule::Foldl => cs.len() >= 3 && (t matches slang::Term::Foldl(f) && slang_term_matches(cs[0], f.target)
            && slang_term_matches(cs[1], f.acc) && slang_term_matches(cs[2], f.func)),
        Rule::Lambda => cs.len() >= 1 && (t matches slang::Term::Lambda(l) && slang_term_matches(cs[cs.len() - 1], l.body)
            && l.bounds@.len() == cs.len() - 1 && forall|i: int|
            0 <= i < cs.len() - 1 ==> bound_matches(#[trigger] cs[i], l.bounds@[i])),
        Rule::MapOver => cs.len() >= 2 && (t matches slang::Term::MapOver(m) && slang_term_matches(cs[0], m.target)
            && slang_term_matches(cs[1], m.func)),
        Rule::Not => cs.len() >= 1 && (t matches slang::Term::Not(x) && slang_term_matches(cs[0], x.term)),
        Rule::And => t matches slang::Term::And(a) && slang_clauses_match(cs, a.clauses@),
        Rule::Or => t matches slang::Term::Or(o) && o.clauses@.len() == cs.len() && forall|i: int|
            0 <= i < cs.len() ==> slang_term_matches(#[trigger] cs[i], o.clauses@[i]),
        Rule::RecordField => cs.len() >= 2 && (t matches slang::Term::RecordField(x) && slang_term_matches(cs[0], x.target)
            && x.member@ == id_name(cs[1])),
        Rule::Param => cs.len() >= 1 && (t matches slang::Term::Param(p) && p.name@ == id_name(cs[0])),
        Rule::Result => cs.len() >= 1 && (t matches slang::Term::Result(p) && p.name@ == id_name(cs[0])),
        Rule::ResourceId => cs.len() >= 1 && (t matches slang::Term::ResourceId(x) && x@ == id_name(cs[0])),
        Rule::FlagsGet => cs.len() >= 2 && (t matches slang::Term::FlagsGet(x) && slang_term_matches(cs[0], x.target)
            && x.field@ == id_name(cs[1])),
        Rule::IntConst => cs.len() >= 1 && (t matches slang::Term::IntWrap(x) && slang_term_matches(cs[0], x.op)),
        Rule::ListLen => cs.len() >= 1 && (t matches slang::Term::ListLen(x) && slang_term_matches(cs[0], x.op)),
        Rule::U64Const => cs.len() >= 1 && (t matches slang::Term::U64Const(x) && slang_term_matches(cs[0], x.term)),
        Rule::IntAdd => cs.len() >= 2 && (t matches slang::Term::IntAdd(x) && slang_term_matches(cs[0], x.lhs)
            && slang_term_matches(cs[1], x.rhs)),
        Rule::IntGt => cs.len() >= 2 && (t matches slang::Term::IntGt(x) && slang_term_matches(cs[0], x.lhs)
            && slang_term_matches(cs[1], x.rhs)),
        Rule::IntLe => cs.len() >= 2 && (t matches slang::Term::IntLe(x) && slang_term_matches(cs[0], x.lhs)
            && slang_term_matches(cs[1], x.rhs)),
        Rule::ValueEq => cs.len() >= 2 && (t matches slang::Term::ValueEq(x) && slang_term_matches(cs[0], x.lhs)
            && slang_term_matches(cs[1], x.rhs)),
        Rule::StrAt => cs.len() >= 2 && (t matches slang::Term::StrAt(x) && slang_term_matches(cs[0], x.lhs)
            && slang_term_matches(cs[1], x.rhs)),
        Rule::VariantConst => cs.len() >= 2 && (t matches slang::Term::VariantConst(v) && v.ty@ == id_name(cs[0])
            && v.case@ == id_name(cs[1]) && if cs.len() >= 3 {
            v.payload matches Some(p) && slang_term_matches(cs[2], p)
        } else {
            v.payload is None
        }),
        Rule::NoNonExistentDirBacktrack => cs.len() >= 2 && (t matches slang::Term::NoNonExistentDirBacktrack(x)
            && x.fd_param@ == id_name(cs[0]) && x.path_param@ == id_name(cs[1])),
        _ => false,
    }
}

/// Whether `ts` are the terms of the nodes `cs` that are not comments, in
/// order.
pub open spec fn slang_clauses_match(cs: Seq<WitxNode>, ts: Seq<slang::Term>) -> bool
    decreases cs,
{
    if cs.len() == 0 {
        ts.len() == 0
    } else if cs[cs.len() - 1].rule == Rule::Comment {
        slang_clauses_match(cs.subrange(0, cs.len() - 1), ts)
    } else {
        ts.len() > 0 && slang_term_matches(cs[cs.len() - 1], ts[ts.len() - 1]) && slang_clauses_match(
            cs.subrange(0, cs.len() - 1),
            ts.subrange(0, ts.len() - 1),
        )
    }
}

/// The texts of `cs`, one after the other.
fn text_of(cs: &Vec<WitxNode>) -> (r: String)
    ensures
        r@ == texts(cs@),
{
    let mut r = String::new();
    let mut k: usize = 0;
    while k < cs.len()
        invariant
            k <= cs@.len(),
            r@ == texts(cs@.subrange(0, k as int)),
        decreases cs@.len() - k,
    {
        let chars = chars_of(cs[k].text.as_str());
        let ghost before = r@;
        let mut j: usize = 0;
        while j < chars.len()
            invariant
                j <= chars@.len(),
                r@ == before + chars@.subrange(0, j as int),
            decreases chars@.len() - j,
        {
            push_char(&mut r, chars[j]);
            assert(chars@.subrange(0, j + 1) == chars@.subrange(0, j as int).push(chars@[j as int]));
            j = j + 1;
        }
        assert(chars@.subrange(0, chars@.len() as int) == chars@);
        assert(cs@.subrange(0, k + 1).drop_last() == cs@.subrange(0, k as int));
        k = k + 1;
    }
    assert(cs@.subrange(0, cs@.len() as int) == cs@);
    r
}

/// Reads the name a lambda binds, and its type.
fn to_bound(b: &WitxNode) -> (r: slang::Bound)
    requires
        bound_shaped(*b),
    ensures
        bound_matches(*b, r),
{
    let name = id_of(&b.children[0]);
    let t = &b.children[1];
    let tref = if t.rule == Rule::Id {
        slang::TypeRef::Wasi(id_of(t))
    } else if t.rule == Rule::Bool {
        slang::TypeRef::Wazzi(slang::WazziType::Bool)
    } else {
        slang::TypeRef::Wazzi(slang::WazziType::Int)
    };
    slang::Bound { name, tref }
}

/// Reads the term of a main fuzzer's `@input` or `@output` annotation that
/// a node stands for. It fails with `BadInteger` exactly where an integer
/// literal it meets is not one.
pub fn to_slang_term(n: &WitxNode) -> (r: Result<slang::Term, SpecError>)
    requires
        slang_shaped(*n),
    ensures
        r is Ok <==> slang_literals_read(*n),
        r matches Ok(t) ==> slang_term_matches(*n, t),
        r matches Err(e) ==> e == SpecError::BadInteger,
    decreases n,
{
    let ghost cs = n.children@;
    match n.rule {
        Rule::Id => Ok(slang::Term::Binding(id_of(n))),
        Rule::True => Ok(slang::Term::True),
        Rule::String => Ok(slang::Term::String(text_of(&n.children))),
        Rule::NumLit => match parse_bigint(n.text.as_str()) {
            Some(b) => Ok(slang::Term::IntConst(b)),
            None => Err(SpecError::BadInteger),
        },
        Rule::Foldl => {
            let target = match to_slang_term(&n.children[0]) {
                Ok(t) => t,
                Err(e) => {
                    return Err(e);
                },
            };
            let acc = match to_slang_term(&n.children[1]) {
                Ok(t) => t,
                Err(e) => {
                    return Err(e);
                },
            };
            let func = match to_slang_term(&n.children[2]) {
                Ok(t) => t,
                Err(e) => {
                    return Err(e);
                },
            };
            Ok(slang::Term::Foldl(Box::new(slang::Foldl { target, acc, func })))
        },
        Rule::Lambda => {
            let last = n.children.len() - 1;
            let mut bounds: Vec<slang::Bound> = Vec::new();
            let mut i: usize = 0;
            while i < last
                invariant
                    cs == n.children@,
                    n.rule == Rule::Lambda,
                    slang_shaped(*n),
                    last == cs.len() - 1,
                    i <= last,
                    bounds@.len() == i,
                    forall|k: int| 0 <= k < i ==> bound_matches(#[trigger] cs[k], bounds@[k]),
                decreases last - i,
            {
                assert(bound_shaped(cs[i as int]));
                bounds.push(to_bound(&n.children[i]));
                i = i + 1;
            }
            match to_slang_term(&n.children[last]) {
                Ok(body) => Ok(slang::Term::Lambda(Box::new(slang::Lambda { bounds, body }))),
                Err(e) => Err(e),
            }
        },
        Rule::MapOver => match to_slang_term(&n.children[0]) {
            Ok(target) => match to_slang_term(&n.children[1]) {
                Ok(func) => Ok(slang::Term::MapOver(Box::new(slang::MapOver { target, func }))),
                Err(e) => Err(e),
            },
            Err(e) => Err(e),
        },
        Rule::Not => match to_slang_term(&n.children[0]) {
            Ok(term) => Ok(slang::Term::Not(Box::new(slang::Not { term }))),
            Err(e) => Err(e),
        },
        Rule::And => {
            let mut clauses: Vec<slang::Term> = Vec::new();
            let mut i: usize = 0;
            while i < n.children.len()
                invariant
                    cs == n.children@,
                    n.rule == Rule::And,
                    slang_shaped(*n),
                    i <= cs.len(),
                    slang_clauses_match(cs.subrange(0, i as int), clauses@),
                    forall|j: int| 0 <= j < i && (#[trigger] cs[j]).rule != Rule::Comment ==> slang_literals_read(cs[j]),
                decreases cs.len() - i,
            {
                let c = &n.children[i];
                let ghost before = clauses@;
                assert(cs.subrange(0, i + 1).subrange(0, i as int) == cs.subrange(0, i as int));
                if c.rule != Rule::Comment {
                    assert(slang_shaped(cs[i as int]));
                    match to_slang_term(c) {
                        Ok(t) => {
                            clauses.push(t);
                            assert(clauses@.subrange(0, clauses@.len() - 1) == before);
                        },
                        Err(e) => {
                            return Err(e);
                        },
                    }
                }
                i = i + 1;
            }
            assert(cs.subrange(0, cs.len() as int) == cs);
            Ok(slang::Term::And(slang::And { clauses }))
        },
        Rule::Or => {
            let mut clauses: Vec<slang::Term> = Vec::new();
            let mut i: usize = 0;
            while i < n.children.len()
                invariant
                    cs == n.children@,
                    n.rule == Rule::Or,
                    slang_shaped(*n),
                    i <= cs.len(),
                    clauses@.len() == i,
                    forall|j: int| 0 <= j < i ==> slang_term_matches(#[trigger] cs[j], clauses@[j]),
                    forall|j: int| 0 <= j < i ==> slang_literals_read(#[trigger] cs[j]),
                decreases cs.len() - i,
            {
                assert(slang_shaped(cs[i as int]));
                match to_slang_term(&n.children[i]) {
                    Ok(t) => {
                        clauses.push(t);
                    },
                    Err(e) => {
                        return Err(e);
                    },
                }
                i = i + 1;
            }
            Ok(slang::Term::Or(slang::Or { clauses }))
        },
        Rule::RecordField => match to_slang_term(&n.children[0]) {
            Ok(target) => Ok(slang::Term::RecordField(Box::new(slang::RecordField { target, member: id_of(&n.children[1]) }))),
            Err(e) => Err(e),
        },
        Rule::Param => Ok(slang::Term::Param(slang::Param { name: id_of(&n.children[0]) })),
        Rule::Result => Ok(slang::Term::Result(slang::Param { name: id_of(&n.children[0]) })),
        Rule::ResourceId => Ok(slang::Term::ResourceId(id_of(&n.children[0]))),
        Rule::FlagsGet => match to_slang_term(&n.children[0]) {
            Ok(target) => Ok(slang::Term::FlagsGet(Box::new(slang::FlagsGet { target, field: id_of(&n.children[1]) }))),
            Err(e) => Err(e),
        },
        Rule::IntConst => match to_slang_term(&n.children[0]) {
            Ok(op) => Ok(slang::Term::IntWrap(Box::new(slang::IntWrap { op }))),
            Err(e) => Err(e),
        },
        Rule::ListLen => match to_slang_term(&n.children[0]) {
            Ok(op) => Ok(slang::Term::ListLen(Box::new(slang::ListLen { op }))),
            Err(e) => Err(e),
        },
        Rule::U64Const => match to_slang_term(&n.children[0]) {
            Ok(term) => Ok(slang::Term::U64Const(Box::new(slang::UnaryTerm { term }))),
            Err(e) => Err(e),
        },
        Rule::IntAdd => match to_slang_term(&n.children[0]) {
            Ok(lhs) => match to_slang_term(&n.children[1]) {
                Ok(rhs) => Ok(slang::Term::IntAdd(Box::new(slang::IntAdd { lhs, rhs }))),
                Err(e) => Err(e),
            },
            Err(e) => Err(e),
        },
        Rule::IntGt => match to_slang_term(&n.children[0]) {
            Ok(lhs) => match to_slang_term(&n.children[1]) {
                Ok(rhs) => Ok(slang::Term::IntGt(Box::new(slang::IntGt { lhs, rhs }))),
                Err(e) => Err(e),
            },
            Err(e) => Err(e),
        },
        Rule::IntLe => match to_slang_term(&n.children[0]) {
            Ok(lhs) => match to_slang_term(&n.children[1]) {
                Ok(rhs) => Ok(slang::Term::IntLe(Box::new(slang::IntLe { lhs, rhs }))),
                Err(e) => Err(e),
            },
            Err(e) => Err(e),
        },
        Rule::ValueEq => match to_slang_term(&n.children[0]) {
            Ok(lhs) => match to_slang_term(&n.children[1]) {
                Ok(rhs) => Ok(slang::Term::ValueEq(Box::new(slang::ValueEq { lhs, rhs }))),
                Err(e) => Err(e),
            },
            Err(e) => Err(e),
        },
        Rule::StrAt => match to_slang_term(&n.children[0]) {
            Ok(lhs) => match to_slang_term(&n.children[1]) {
                Ok(rhs) => Ok(slang::Term::StrAt(Box::new(slang::BinaryTerm { lhs, rhs }))),
                Err(e) => Err(e),
            },
            Err(e) => Err(e),
        },
        Rule::VariantConst => {
            let ty = id_of(&n.children[0]);
            let case = id_of(&n.children[1]);
            if n.children.len() >= 3 {
                match to_slang_term(&n.children[2]) {
                    Ok(p) => Ok(slang::Term::VariantConst(Box::new(slang::VariantConst { ty, case, payload: Some(p) }))),
                    Err(e) => Err(e),
                }
            } else {
                Ok(slang::Term::VariantConst(Box::new(slang::VariantConst { ty, case, payload: None })))
            }
        },
        Rule::NoNonExistentDirBacktrack => Ok(slang::Term::NoNonExistentDirBacktrack(Box::new(
            slang::NoNonExistentDirBacktrack { fd_param: id_of(&n.children[0]), path_param: id_of(&n.children[1]) },
        ))),
        _ => {
            assert(false);
            Err(SpecError::BadInteger)
        },
    }
}

/// Whether a node is an annotation whose first node is the annotation
/// `text`.
pub open spec fn annotated(it: WitxNode, text: Seq<char>) -> bool {
    &&& it.rule == Rule::AnnotationExpr
    &&& it.children@.len() >= 1
    &&& it.children@[0].rule == Rule::Annotation
    &&& it.children@[0].text@ == text
}

/// Whether the effect statements of an annotation before the `j`th read
/// without error.
pub open spec fn stmts_ok_before(it: WitxNode, j: int) -> bool {
    forall|j2: int| 1 <= j2 < j ==> expr_reads((#[trigger] it.children@[j2]).children@[2])
}

/// Whether a type read as a result is an expected type: a variant whose
/// first two cases are `expected` and `error`.
pub open spec fn is_expected(ty: WazziType) -> bool {
    ty.wasi matches WasiType::Variant(v) && v.cases@.len() >= 2 && v.cases@[0].name@ == "expected"@
        && v.cases@[1].name@ == "error"@
}

/// The payload of the first case of a variant type.
pub open spec fn expected_payload(ty: WazziType) -> Option<WazziType> {
    match ty.wasi {
        WasiType::Variant(v) => v.cases@[0].payload,
        _ => None,
    }
}

/// Whether a result whose type reads as an expected type has a payload in
/// its first case.
pub open spec fn expected_ok(spec: SpecTypes, t: WitxNode) -> bool {
    forall|ty: WazziType| #[trigger] tref_read(spec, t, ty) && is_expected(ty) ==> expected_payload(ty) is Some
}

/// The error that reading a node of a function meets, if any.
pub open spec fn item_error(spec: SpecTypes, it: WitxNode) -> Option<SpecError> {
    let cs = it.children@;
    if it.rule == Rule::Param || it.rule == Rule::Result {
        tref_error(spec, cs[1])
    } else if annotated(it, "@input"@) {
        if literals_read(cs[1]) {
            None
        } else {
            Some(SpecError::BadInteger)
        }
    } else if annotated(it, "@effects"@) {
        if stmts_ok_before(it, cs.len() as int) {
            None
        } else {
            Some(SpecError::BadInteger)
        }
    } else {
        None
    }
}

/// The error that reading the nodes of a function meets first, if any.
pub open spec fn items_error(spec: SpecTypes, items: Seq<WitxNode>) -> Option<SpecError>
    decreases items.len(),
{
    if items.len() == 0 {
        None
    } else {
        match items_error(spec, items.drop_last()) {
            Some(e) => Some(e),
            None => item_error(spec, items.last()),
        }
    }
}

/// Whether a node of a function has the shape that reading it takes: a
/// comment; a parameter or result with its name and type reference; an
/// `@input` annotation with its term; an `@effects` annotation with its
/// statements, so far as they are read.
pub open spec fn item_shaped(spec: SpecTypes, it: WitxNode) -> bool {
    let cs = it.children@;
    if it.rule == Rule::Comment {
        true
    } else if it.rule == Rule::Param {
        cs.len() >= 2 && cs[0].rule == Rule::Id && is_id(cs[0]) && tref_shaped(spec, cs[1])
    } else if it.rule == Rule::Result {
        cs.len() >= 2 && cs[0].rule == Rule::Id && tref_shaped(spec, cs[1]) && (tref_error(spec, cs[1]) is None
            ==> expected_ok(spec, cs[1]))
    } else if annotated(it, "@input"@) {
        cs.len() >= 2 && term_shaped(cs[1])
    } else if annotated(it, "@effects"@) {
        forall|j: int| 1 <= j < cs.len() && stmts_ok_before(it, j) ==> stmt_shaped(spec, #[trigger] cs[j])
    } else {
        false
    }
}

/// The nodes of a function after its name.
pub open spec fn function_items(f: WitxNode) -> Seq<WitxNode> {
    f.children@.subrange(1, f.children@.len() as int)
}

/// Whether a function node has the shape that reading it takes: its name,
/// then nodes each of a shape that reading takes, up to the first error.
pub open spec fn function_shaped(spec: SpecTypes, f: WitxNode) -> bool {
    let cs = f.children@;
    &&& cs.len() >= 1
    &&& cs[0].rule == Rule::FunctionName
    &&& forall|i: int|
        1 <= i < cs.len() && items_error(spec, cs.subrange(1, i)) is None ==> item_shaped(spec, #[trigger] cs[i])
}

/// Whether `ps` are the parameters that the nodes of a function give.
pub open spec fn params_read(spec: SpecTypes, items: Seq<WitxNode>, ps: Seq<FunctionParam>) -> bool
    decreases items.len(),
{
    if items.len() == 0 {
        ps.len() == 0
    } else if items.last().rule == Rule::Param {
        let cs = items.last().children@;
        &&& ps.len() > 0
        &&& ps.last().name@ == id_name(cs[0])
        &&& tref_read(spec, cs[1], ps.last().ty)
        &&& params_read(spec, items.drop_last(), ps.drop_last())
    } else {
        params_read(spec, items.drop_last(), ps)
    }
}

/// Whether `r` is the result that a result node gives for the type `ty`
/// read for it: the payload of an expected type's first case, named
/// `expected`, or else the type under the result's name as written.
pub open spec fn result_of(id: WitxNode, ty: WazziType, r: FunctionResult) -> bool {
    if is_expected(ty) {
        r.name@ == "expected"@ && (expected_payload(ty) matches Some(p) && same_wazzi(p, r.ty))
    } else {
        r.name@ == id.text@ && r.ty == ty
    }
}

/// Whether `rs` are the results that the nodes of a function give.
pub open spec fn results_read(spec: SpecTypes, items: Seq<WitxNode>, rs: Seq<FunctionResult>) -> bool
    decreases items.len(),
{
    if items.len() == 0 {
        rs.len() == 0
    } else if items.last().rule == Rule::Result {
        let cs = items.last().children@;
        &&& rs.len() > 0
        &&& exists|ty: WazziType| #[trigger] tref_read(spec, cs[1], ty) && result_of(cs[0], ty, rs.last())
        &&& results_read(spec, items.drop_last(), rs.drop_last())
    } else {
        results_read(spec, items.drop_last(), rs)
    }
}

/// Whether one of the results of a function is of an expected type.
pub open spec fn returns_expected(spec: SpecTypes, items: Seq<WitxNode>) -> bool
    decreases items.len(),
{
    if items.len() == 0 {
        false
    } else {
        ||| returns_expected(spec, items.drop_last())
        ||| items.last().rule == Rule::Result && exists|ty: WazziType|
            #[trigger] tref_read(spec, items.last().children@[1], ty) && is_expected(ty)
    }
}

/// Whether `ic` is the input contract that the nodes of a function give:
/// the term of the last `@input` annotation, none where there is none.
pub open spec fn input_read(items: Seq<WitxNode>, ic: Option<Term>) -> bool
    decreases items.len(),
{
    if items.len() == 0 {
        ic is None
    } else if annotated(items.last(), "@input"@) {
        ic matches Some(t) && term_matches(items.last().children@[1], t)
    } else {
        input_read(items.drop_last(), ic)
    }
}

/// Whether `st` is the statement that an effect node reads as.
pub open spec fn stmt_read(spec: SpecTypes, n: WitxNode, st: Stmt) -> bool {
    st matches Stmt::AttrSet(a) && a.resource@ == id_name(n.children@[0]) && a.attr@ == id_name(n.children@[1])
        && expr_read(spec, n.children@[2], a.value)
}

/// Whether `stmts` are the statements of the `@effects` annotations among
/// the nodes of a function, in order.
pub open spec fn effects_read(spec: SpecTypes, items: Seq<WitxNode>, stmts: Seq<Stmt>) -> bool
    decreases items.len(),
{
    if items.len() == 0 {
        stmts.len() == 0
    } else if annotated(items.last(), "@effects"@) {
        let cs = items.last().children@;
        let m = cs.len() - 1;
        let base = stmts.len() - m;
        &&& base >= 0
        &&& effects_read(spec, items.drop_last(), stmts.subrange(0, base))
        &&& forall|j: int| 0 <= j < m ==> stmt_read(spec, cs[j + 1], #[trigger] stmts[base + j])
    } else {
        effects_read(spec, items.drop_last(), stmts)
    }
}

/// Whether `func` is the function that a function node reads as.
pub open spec fn function_read(spec: SpecTypes, f: WitxNode, func: Function) -> bool {
    let items = function_items(f);
    &&& func.name@ == f.children@[0].text@
    &&& params_read(spec, items, func.params@)
    &&& results_read(spec, items, func.results@)
    &&& (func.return_type is Some <==> returns_expected(spec, items))
    &&& input_read(items, func.input_contract)
    &&& effects_read(spec, items, func.effects.stmts@)
}

/// Once reading the nodes of a function has met an error, more nodes keep
/// it.
proof fn lemma_items_error_prefix(spec: SpecTypes, items: Seq<WitxNode>, k: int)
    requires
        0 <= k <= items.len(),
        items_error(spec, items.subrange(0, k)) is Some,
    ensures
        items_error(spec, items) == items_error(spec, items.subrange(0, k)),
    decreases items.len() - k,
{
    if k < items.len() {
        let init = items.drop_last();
        assert(init.subrange(0, k) == items.subrange(0, k));
        lemma_items_error_prefix(spec, init, k);
    } else {
        assert(items.subrange(0, k) == items);
    }
}

/// Reads the statements of an `@effects` annotation, adding them to
/// `stmts`.
fn read_effects(spec: &Spec, it: &WitxNode, stmts: &mut Vec<Stmt>) -> (r: Result<(), SpecError>)
    requires
        map_ok(types_of(*spec)),
        annotated(*it, "@effects"@),
        forall|j: int|
            1 <= j < it.children@.len() && stmts_ok_before(*it, j) ==> stmt_shaped(types_of(*spec), #[trigger] it.children@[j]),
    ensures
        r is Ok <==> stmts_ok_before(*it, it.children@.len() as int),
        r matches Err(e) ==> e == SpecError::BadInteger,
        r is Ok ==> ({
            let m = it.children@.len() - 1;
            &&& final(stmts)@.len() == old(stmts)@.len() + m
            &&& final(stmts)@.subrange(0, old(stmts)@.len() as int) == old(stmts)@
            &&& forall|j: int|
                0 <= j < m ==> stmt_read(types_of(*spec), it.children@[j + 1], #[trigger] final(stmts)@[old(stmts)@.len() + j])
        }),
{
    let ghost base = stmts@.len();
    let ghost cs = it.children@;
    let mut j: usize = 1;
    while j < it.children.len()
        invariant
            map_ok(types_of(*spec)),
            cs == it.children@,
            1 <= j <= cs.len(),
            forall|j2: int| 1 <= j2 < cs.len() && stmts_ok_before(*it, j2) ==> stmt_shaped(types_of(*spec), #[trigger] cs[j2]),
            stmts_ok_before(*it, j as int),
            base == old(stmts)@.len(),
            stmts@.len() == base + j - 1,
            stmts@.subrange(0, base as int) == old(stmts)@,
            forall|j2: int| 0 <= j2 < j - 1 ==> stmt_read(types_of(*spec), cs[j2 + 1], #[trigger] stmts@[base + j2]),
        decreases cs.len() - j,
    {
        assert(stmt_shaped(types_of(*spec), cs[j as int]));
        let ghost before = stmts@;
        match to_stmt(spec, &it.children[j]) {
            Ok(st) => {
                stmts.push(st);
                proof {
                    assert(stmts@.subrange(0, base as int) == before.subrange(0, base as int));
                    assert forall|j2: int| 0 <= j2 < j implies stmt_read(types_of(*spec), cs[j2 + 1], #[trigger] stmts@[base + j2]) by {
                        if j2 < j - 1 {
                            assert(stmts@[base + j2] == before[base + j2]);
                        }
                    }
                    assert forall|j2: int| 1 <= j2 < j + 1 implies expr_reads((#[trigger] it.children@[j2]).children@[2]) by {
                        if j2 < j {
                            assert(stmts_ok_before(*it, j as int));
                        }
                    }
                }
            },
            Err(e) => {
                proof {
                    assert(!expr_reads(it.children@[j as int].children@[2]));
                }
                return Err(e);
            },
        }
        j = j + 1;
    }
    Ok(())
}

/// Whether a type read for a reference is an expected type does not depend
/// on which copy was read.
proof fn lemma_expected_determined(spec: SpecTypes, t: WitxNode, a: WazziType, b: WazziType)
    requires
        tref_read(spec, t, a),
        tref_read(spec, t, b),
    ensures
        is_expected(a) == is_expected(b),
{
    let c = t.children@[0];
    if c.rule != Rule::Id {
        let p = c.children@[0];
        assert(wasi_read(spec, p, a.wasi));
        assert(wasi_read(spec, p, b.wasi));
        if p.rule == Rule::Union {
            let tv = named(spec, id_name(p.children@[0])).unwrap().wasi->Variant_0;
            let out = union_prefix(spec, items_of(p), tv.cases@, min_of(p.children@.len() - 1, tv.cases@.len() as int))->Ok_0;
            if out.len() >= 2 {
                assert(a.wasi->Variant_0.cases@[0].name == out[0].0);
                assert(b.wasi->Variant_0.cases@[0].name == out[0].0);
                assert(a.wasi->Variant_0.cases@[1].name == out[1].0);
                assert(b.wasi->Variant_0.cases@[1].name == out[1].0);
            }
        } else if p.rule == Rule::Enum {
            let names = id_names(items_of(p));
            if names.len() >= 2 {
                assert(a.wasi->Variant_0.cases@[0].name@ == names[0]);
                assert(b.wasi->Variant_0.cases@[0].name@ == names[0]);
                assert(a.wasi->Variant_0.cases@[1].name@ == names[1]);
                assert(b.wasi->Variant_0.cases@[1].name@ == names[1]);
            }
        }
    } else {
        let x = named(spec, id_name(c)).unwrap();
        reveal_with_fuel(same_wazzi, 2);
        if x.wasi is Variant {
            let xv = x.wasi->Variant_0;
            if xv.cases@.len() >= 2 {
                assert(a.wasi->Variant_0.cases@[0].name == xv.cases@[0].name);
                assert(b.wasi->Variant_0.cases@[0].name == xv.cases@[0].name);
                assert(a.wasi->Variant_0.cases@[1].name == xv.cases@[1].name);
                assert(b.wasi->Variant_0.cases@[1].name == xv.cases@[1].name);
            }
        }
    }
}

/// Whether a type is an expected type.
fn expected_type(ty: &WazziType) -> (r: bool)
    ensures
        r == is_expected(*ty),
{
    proof {
        reveal_strlit("expected");
        reveal_strlit("error");
    }
    let expected = "expected".to_owned();
    let error = "error".to_owned();
    match &ty.wasi {
        WasiType::Variant(v) => v.cases.len() >= 2 && v.cases[0].name == expected && v.cases[1].name == error,
        _ => false,
    }
}

/// Whether a node is the annotation `text`.
fn annotation_is(it: &WitxNode, text: &String) -> (r: bool)
    ensures
        r == annotated(*it, text@),
{
    it.rule == Rule::AnnotationExpr && it.children.len() >= 1 && it.children[0].rule == Rule::Annotation
        && it.children[0].text == *text
}

/// What reading the nodes of a function gathers.
struct FunctionParts {
    params: Vec<FunctionParam>,
    results: Vec<FunctionResult>,
    return_type: Option<()>,
    input_contract: Option<Term>,
    stmts: Vec<Stmt>,
}

/// Whether `p` is what the nodes `items` of a function gather.
spec fn parts_read(spec: SpecTypes, items: Seq<WitxNode>, p: FunctionParts) -> bool {
    &&& params_read(spec, items, p.params@)
    &&& results_read(spec, items, p.results@)
    &&& (p.return_type is Some <==> returns_expected(spec, items))
    &&& input_read(items, p.input_contract)
    &&& effects_read(spec, items, p.stmts@)
}

/// Reads one node of a function into `parts`.
#[verifier::rlimit(40)]
fn read_item(spec: &Spec, it: &WitxNode, parts: &mut FunctionParts) -> (r: Result<(), SpecError>)
    requires
        map_ok(types_of(*spec)),
        item_shaped(types_of(*spec), *it),
    ensures
        match item_error(types_of(*spec), *it) {
            Some(e) => r == Err::<(), SpecError>(e),
            None => r is Ok && forall|pre: Seq<WitxNode>|
                parts_read(types_of(*spec), pre, *old(parts)) ==> #[trigger] parts_read(
                    types_of(*spec),
                    pre.push(*it),
                    *final(parts),
                ),
        },
{
    proof {
        reveal_strlit("@input");
        reveal_strlit("@effects");
        reveal_strlit("expected");
    }
    let ghost sv = types_of(*spec);
    let ghost p0 = *parts;
    let at_input = "@input".to_owned();
    if it.rule == Rule::Comment {
        assert forall|pre: Seq<WitxNode>| parts_read(sv, pre, p0) implies #[trigger] parts_read(sv, pre.push(*it), *parts) by {
            assert(pre.push(*it).drop_last() == pre);
        }
        Ok(())
    } else if it.rule == Rule::Param {
        let pname = id_of(&it.children[0]);
        match read_tref(spec, &it.children[1]) {
            Ok(ty) => {
                parts.params.push(FunctionParam { name: pname, ty });
                assert forall|pre: Seq<WitxNode>| parts_read(sv, pre, p0) implies #[trigger] parts_read(sv, pre.push(*it), *parts) by {
                    assert(pre.push(*it).drop_last() == pre);
                    assert(parts.params@.drop_last() == p0.params@);
                }
                Ok(())
            },
            Err(e) => Err(e),
        }
    } else if it.rule == Rule::Result {
        match read_tref(spec, &it.children[1]) {
            Ok(ty) => {
                let ghost tyg = ty;
                if expected_type(&ty) {
                    parts.return_type = Some(());
                    let payload = match &ty.wasi {
                        WasiType::Variant(v) => match &v.cases[0].payload {
                            Some(p) => p.duplicate(),
                            None => {
                                assert(false);
                                return Err(SpecError::UnexpectedType);
                            },
                        },
                        _ => {
                            assert(false);
                            return Err(SpecError::UnexpectedType);
                        },
                    };
                    parts.results.push(FunctionResult { name: "expected".to_owned(), ty: payload });
                } else {
                    parts.results.push(FunctionResult { name: it.children[0].text.clone(), ty });
                }
                proof {
                    assert(parts.results@.drop_last() == p0.results@);
                    assert(tref_read(sv, it.children@[1], tyg) && result_of(it.children@[0], tyg, parts.results@.last()));
                    if !is_expected(tyg) {
                        assert forall|ty2: WazziType| #[trigger] tref_read(sv, it.children@[1], ty2) implies !is_expected(ty2) by {
                            lemma_expected_determined(sv, it.children@[1], tyg, ty2);
                        }
                    }
                    assert forall|pre: Seq<WitxNode>| parts_read(sv, pre, p0) implies #[trigger] parts_read(sv, pre.push(*it), *parts) by {
                        assert(pre.push(*it).drop_last() == pre);
                    }
                }
                Ok(())
            },
            Err(e) => Err(e),
        }
    } else if annotation_is(it, &at_input) {
        match to_term(&it.children[1]) {
            Ok(t) => {
                parts.input_contract = Some(t);
                assert(!annotated(*it, "@effects"@)) by {
                    assert("@input"@.len() != "@effects"@.len());
                }
                assert forall|pre: Seq<WitxNode>| parts_read(sv, pre, p0) implies #[trigger] parts_read(sv, pre.push(*it), *parts) by {
                    let n = pre.push(*it);
                    assert(n.drop_last() == pre);
                    assert(params_read(sv, n, parts.params@));
                    assert(results_read(sv, n, parts.results@));
                    assert(returns_expected(sv, n) == returns_expected(sv, pre));
                    assert(input_read(n, parts.input_contract));
                    assert(effects_read(sv, n, parts.stmts@));
                }
                Ok(())
            },
            Err(e) => Err(e),
        }
    } else {
        assert(annotated(*it, "@effects"@));
        match read_effects(spec, it, &mut parts.stmts) {
            Ok(()) => {
                proof {
                    let m = it.children@.len() - 1;
                    assert forall|pre: Seq<WitxNode>| parts_read(sv, pre, p0) implies #[trigger] parts_read(sv, pre.push(*it), *parts) by {
                        assert(pre.push(*it).drop_last() == pre);
                        assert(parts.stmts@.subrange(0, parts.stmts@.len() - m) == p0.stmts@);
                    }
                }
                Ok(())
            },
            Err(e) => Err(e),
        }
    }
}

/// Reads a function node: its name as written, its parameters, its results
/// (an expected type's first payload standing for the result, and marking
/// that the function returns), the term of its last `@input` annotation and
/// the statements of its `@effects` annotations. It fails with the first
/// error that reading meets.
#[verifier::rlimit(100)]
#[verifier::spinoff_prover]
pub fn read_function(spec: &Spec, f: &WitxNode) -> (r: Result<Function, SpecError>)
    requires
        map_ok(types_of(*spec)),
        function_shaped(types_of(*spec), *f),
    ensures
        match items_error(types_of(*spec), function_items(*f)) {
            Some(e) => r == Err::<Function, SpecError>(e),
            None => r matches Ok(func) && function_read(types_of(*spec), *f, func),
        },
{
    let ghost sv = types_of(*spec);
    let ghost cs = f.children@;
    let ghost items = function_items(*f);
    let name = f.children[0].text.clone();
    let mut parts = FunctionParts {
        params: Vec::new(),
        results: Vec::new(),
        return_type: None,
        input_contract: None,
        stmts: Vec::new(),
    };
    assert(cs.subrange(1, 1) == Seq::<WitxNode>::empty());
    let mut i: usize = 1;
    while i < f.children.len()
        invariant
            map_ok(sv),
            sv == types_of(*spec),
            cs == f.children@,
            function_shaped(sv, *f),
            items == function_items(*f),
            1 <= i <= cs.len(),
            items_error(sv, cs.subrange(1, i as int)) is None,
            parts_read(sv, cs.subrange(1, i as int), parts),
        decreases cs.len() - i,
    {
        let it = &f.children[i];
        let ghost pre = cs.subrange(1, i as int);
        let ghost next = cs.subrange(1, i + 1);
        assert(next == pre.push(*it));
        assert(next.drop_last() == pre);
        assert(items.subrange(0, i as int) == next);
        assert(item_shaped(sv, cs[i as int]));
        match read_item(spec, it, &mut parts) {
            Ok(()) => {},
            Err(e) => {
                proof {
                    lemma_items_error_prefix(sv, items, i as int);
                }
                return Err(e);
            },
        }
        i = i + 1;
    }
    assert(cs.subrange(1, cs.len() as int) == items);
    Ok(Function {
        name,
        params: parts.params,
        results: parts.results,
        return_type: parts.return_type,
        input_contract: parts.input_contract,
        effects: Program { stmts: parts.stmts },
    })
}


/// Flags and enums take the representation their repr node names, of the
/// same width: `u8` one byte, `u16` two, `u32` four, `u64` eight.
pub proof fn lemma_repr_width(spec: SpecTypes, p: WitxNode, w: WasiType)
    requires
        p.rule == Rule::Flags || p.rule == Rule::Enum,
        wasi_read(spec, p, w),
    ensures
        ({
            let r = p.children@[0].children@[0].rule;
            let repr = match w {
                WasiType::Flags(f) => f.repr,
                WasiType::Variant(v) => v.tag_repr,
                _ => IntRepr::U8,
            };
            &&& (w is Flags || w is Variant)
            &&& r == Rule::U8 ==> repr == IntRepr::U8 && repr.bytes() == 1
            &&& r == Rule::U16 ==> repr == IntRepr::U16 && repr.bytes() == 2
            &&& r == Rule::U32 ==> repr == IntRepr::U32 && repr.bytes() == 4
            &&& r == Rule::U64 ==> repr == IntRepr::U64 && repr.bytes() == 8
        }),
{
}


/// A primitive type node reads as the primitive of the same name and width.
pub proof fn lemma_primitive_read(spec: SpecTypes, p: WitxNode, w: WasiType)
    requires
        wasi_read(spec, p, w),
    ensures
        p.rule == Rule::U8 ==> w == WasiType::U8,
        p.rule == Rule::U16 ==> w == WasiType::U16,
        p.rule == Rule::U32 ==> w == WasiType::U32,
        p.rule == Rule::U64 ==> w == WasiType::U64,
        p.rule == Rule::S64 ==> w == WasiType::S64,
        p.rule == Rule::Handle ==> w == WasiType::Handle,
        p.rule == Rule::String ==> w == WasiType::String,
{
}

} // verus!
