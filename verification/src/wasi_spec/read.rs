//! Reading the types of the specification from its parse tree: a type
//! refers to another one by name, or writes it out in place.
use vstd::prelude::*;

use super::types::{
    FlagsType, IntRepr, ListType, RecordMemberType, RecordType, Spec, TypeRef, VariantCaseType, VariantType, WasiType,
};
use crate::witx::{id_name, id_names, id_of, is_bad_item, is_id, items_of, names_shaped, read_names, Rule, SpecError, WitxNode};

verus! {

/// The integer representation that a rule names, if it names one.
pub open spec fn repr_of(r: Rule) -> Option<IntRepr> {
    match r {
        Rule::U8 => Some(IntRepr::U8),
        Rule::U16 => Some(IntRepr::U16),
        Rule::U32 => Some(IntRepr::U32),
        Rule::U64 => Some(IntRepr::U64),
        _ => None,
    }
}

/// The node a type reference stands for: what is inside a reference node,
/// the node itself otherwise.
pub open spec fn referred(t: WitxNode) -> WitxNode {
    if t.rule == Rule::TypeRef {
        t.children@[0]
    } else {
        t
    }
}

/// The node of a type's kind that a type reference writes out.
pub open spec fn referred_kind(t: WitxNode) -> WitxNode {
    referred(t).children@[0]
}

/// Whether some node of a union before position `m` is neither an
/// identifier nor a comment.
pub open spec fn union_bad(items: Seq<WitxNode>, m: int) -> bool {
    exists|j: int| 0 <= j < m && is_bad_item(#[trigger] items[j])
}

/// The cases that a union reads from its first `m` nodes, each paired with
/// the case of its tag at the same position: an identifier names the
/// payload's type; a comment is passed over, its case with it.
pub open spec fn union_cases(items: Seq<WitxNode>, tcases: Seq<VariantCaseType>, m: int) -> Seq<(String, Seq<char>)>
    decreases m,
{
    if m <= 0 {
        Seq::empty()
    } else {
        let acc = union_cases(items, tcases, m - 1);
        if items[m - 1].rule == Rule::Id {
            acc.push((tcases[m - 1].name, id_name(items[m - 1])))
        } else {
            acc
        }
    }
}

/// How many nodes of a union are read: as many as there are after its tag
/// and cases in its tag, whichever is fewer.
pub open spec fn union_len(p: WitxNode, tcases: Seq<VariantCaseType>) -> int {
    if p.children@.len() - 1 <= tcases.len() {
        p.children@.len() - 1
    } else {
        tcases.len() as int
    }
}

/// The error that reading the node of a type's kind meets first, if any.
pub open spec fn kind_error(spec: Spec, p: WitxNode) -> Option<SpecError>
    decreases p,
{
    let cs = p.children@;
    match p.rule {
        Rule::S64 | Rule::U8 | Rule::U16 | Rule::U32 | Rule::U64 | Rule::Handle | Rule::String => None,
        Rule::Flags | Rule::Enum => if exists|i: int| 1 <= i < cs.len() && is_bad_item(#[trigger] cs[i]) {
            Some(SpecError::UnexpectedField)
        } else if cs.len() >= 1 && cs[0].children@.len() >= 1 && repr_of(cs[0].children@[0].rule) is Some {
            None
        } else {
            Some(SpecError::UnknownIntRepr)
        },
        Rule::Union => if cs.len() >= 1 {
            match spec.type_named(id_name(cs[0])) {
                None => Some(SpecError::UnknownType),
                Some(d) => match d.wasi {
                    WasiType::Variant(tv) => if union_bad(items_of(p), union_len(p, tv.cases@)) {
                        Some(SpecError::UnexpectedField)
                    } else {
                        None
                    },
                    _ => None,
                },
            }
        } else {
            None
        },
        Rule::Expected => if cs.len() >= 2 {
            match ref_error(spec, cs[0]) {
                Some(e) => Some(e),
                None => ref_error(spec, cs[1]),
            }
        } else if cs.len() == 1 {
            ref_error(spec, cs[0])
        } else {
            None
        },
        Rule::Record => fields_error(spec, cs),
        Rule::List => if cs.len() >= 1 {
            ref_error(spec, cs[0])
        } else {
            None
        },
        _ => Some(SpecError::UnexpectedType),
    }
}

/// The error that reading a type reference meets, if any.
pub open spec fn ref_error(spec: Spec, t: WitxNode) -> Option<SpecError>
    decreases t,
{
    if t.rule == Rule::TypeRef {
        if t.children@.len() >= 1 && t.children@[0].rule != Rule::Id && t.children@[0].children@.len() >= 1 {
            kind_error(spec, t.children@[0].children@[0])
        } else {
            None
        }
    } else if t.rule != Rule::Id && t.children@.len() >= 1 {
        kind_error(spec, t.children@[0])
    } else {
        None
    }
}

/// The error that reading the members of a record meets first, if any.
pub open spec fn fields_error(spec: Spec, items: Seq<WitxNode>) -> Option<SpecError>
    decreases items,
{
    if items.len() == 0 {
        None
    } else {
        match fields_error(spec, items.subrange(0, items.len() - 1)) {
            Some(e) => Some(e),
            None => {
                let f = items[items.len() - 1];
                if f.rule == Rule::Comment {
                    None
                } else if f.rule == Rule::RecordField {
                    if f.children@.len() >= 2 && f.children@[1].children@.len() >= 1 {
                        ref_error(spec, f.children@[1].children@[0])
                    } else {
                        None
                    }
                } else {
                    Some(SpecError::UnexpectedField)
                }
            },
        }
    }
}

/// Whether the node of a type's kind has the shape that reading it takes,
/// so far as it is read.
pub open spec fn kind_shaped(spec: Spec, p: WitxNode) -> bool
    decreases p,
{
    let cs = p.children@;
    match p.rule {
        Rule::Flags | Rule::Enum => cs.len() >= 1 && cs[0].rule == Rule::IntRepr && cs[0].children@.len() >= 1
            && names_shaped(items_of(p)),
        Rule::Union => cs.len() >= 1 && cs[0].rule == Rule::Id && is_id(cs[0]) && (spec.type_named(id_name(cs[0])) matches Some(
            d,
        ) ==> (d.wasi matches WasiType::Variant(tv) && forall|j: int|
            0 <= j < union_len(p, tv.cases@) && !union_bad(items_of(p), j) && (#[trigger] items_of(p)[j]).rule
                == Rule::Id ==> is_id(items_of(p)[j]))),
        Rule::Expected => cs.len() >= 1 && ref_shaped(spec, cs[0]) && (cs.len() >= 2 && ref_error(spec, cs[0]) is None
            ==> ref_shaped(spec, cs[1])),
        Rule::Record => forall|i: int|
            0 <= i < cs.len() && fields_error(spec, cs.subrange(0, i)) is None && (#[trigger] cs[i]).rule
                == Rule::RecordField ==> field_shaped(spec, cs[i]),
        Rule::List => cs.len() >= 1 && ref_shaped(spec, cs[0]),
        _ => true,
    }
}

/// Whether a record member has the shape that reading it takes: its name,
/// then a reference node around a name or a type written out.
pub open spec fn field_shaped(spec: Spec, f: WitxNode) -> bool
    decreases f,
{
    let cs = f.children@;
    &&& cs.len() >= 2
    &&& cs[0].rule == Rule::Id
    &&& is_id(cs[0])
    &&& cs[1].rule == Rule::TypeRef
    &&& cs[1].children@.len() >= 1
    &&& ref_shaped(spec, cs[1].children@[0])
}

/// Whether a type reference has the shape that reading it takes: a name,
/// or a type written out, inside a reference node or not.
pub open spec fn ref_shaped(spec: Spec, t: WitxNode) -> bool
    decreases t,
{
    if t.rule == Rule::TypeRef {
        t.children@.len() >= 1 && ((t.children@[0].rule == Rule::Id && is_id(t.children@[0])) || (t.children@[0].rule
            == Rule::Type && t.children@[0].children@.len() >= 1 && kind_shaped(spec, t.children@[0].children@[0])))
    } else {
        (t.rule == Rule::Id && is_id(t)) || (t.rule == Rule::Type && t.children@.len() >= 1 && kind_shaped(
            spec,
            t.children@[0],
        ))
    }
}

/// Whether `w` is what the node of a type's kind reads as: the primitive
/// of its rule; flags or an enum with the names of its identifiers, in
/// order, and the representation it names; a union with the tag's
/// representation and, for each identifier, the tag's case at its position
/// with the type it names as payload; the two cases of an expected type,
/// the first without payload where only the error type is given; a record
/// of its members; a list of its item type.
pub open spec fn kind_read(spec: Spec, p: WitxNode, w: WasiType) -> bool
    decreases p,
{
    let cs = p.children@;
    match p.rule {
        Rule::S64 => w == WasiType::S64,
        Rule::U8 => w == WasiType::U8,
        Rule::U16 => w == WasiType::U16,
        Rule::U32 => w == WasiType::U32,
        Rule::U64 => w == WasiType::U64,
        Rule::Handle => w == WasiType::Handle,
        Rule::String => w == WasiType::String,
        Rule::Flags => cs.len() >= 1 && cs[0].children@.len() >= 1 && (w matches WasiType::Flags(f) && Some(f.repr)
            == repr_of(cs[0].children@[0].rule) && f.fields@.len() == id_names(items_of(p)).len() && forall|i: int|
            0 <= i < f.fields@.len() ==> (#[trigger] f.fields@[i])@ == id_names(items_of(p))[i]),
        Rule::Enum => cs.len() >= 1 && cs[0].children@.len() >= 1 && (w matches WasiType::Variant(v) && Some(v.tag_repr)
            == repr_of(cs[0].children@[0].rule) && v.cases@.len() == id_names(items_of(p)).len() && forall|i: int|
            0 <= i < v.cases@.len() ==> (#[trigger] v.cases@[i]).name@ == id_names(items_of(p))[i]
                && v.cases@[i].payload is None),
        Rule::Union => cs.len() >= 1 && match spec.type_named(id_name(cs[0])) {
            Some(d) => match d.wasi {
                WasiType::Variant(tv) => {
                    let out = union_cases(items_of(p), tv.cases@, union_len(p, tv.cases@));
                    w matches WasiType::Variant(v) && v.tag_repr == tv.tag_repr && v.cases@.len() == out.len()
                        && forall|i: int|
                        0 <= i < out.len() ==> (#[trigger] v.cases@[i]).name == out[i].0 && (v.cases@[i].payload matches Some(
                            TypeRef::Named(s),
                        ) && s@ == out[i].1)
                },
                _ => false,
            },
            None => false,
        },
        Rule::Expected => w matches WasiType::Variant(v) && v.tag_repr == IntRepr::U8 && v.cases@.len() == 2
            && v.cases@[0].name@ == "expected"@ && v.cases@[1].name@ == "error"@ && if cs.len() >= 2 {
            (v.cases@[0].payload matches Some(a) && ref_read(spec, cs[0], a)) && (v.cases@[1].payload matches Some(b)
                && ref_read(spec, cs[1], b))
        } else {
            cs.len() == 1 && v.cases@[0].payload is None && (v.cases@[1].payload matches Some(b) && ref_read(
                spec,
                cs[0],
                b,
            ))
        },
        Rule::Record => w matches WasiType::Record(r) && fields_read(spec, cs, r.members@),
        Rule::List => cs.len() >= 1 && (w matches WasiType::List(l) && ref_read(spec, cs[0], l.item)),
        _ => false,
    }
}

/// Whether `tr` is what a type reference reads as: the name it gives, or
/// the type it writes out.
pub open spec fn ref_read(spec: Spec, t: WitxNode, tr: TypeRef) -> bool
    decreases t,
{
    if t.rule == Rule::TypeRef {
        t.children@.len() >= 1 && if t.children@[0].rule == Rule::Id {
            tr matches TypeRef::Named(s) && s@ == id_name(t.children@[0])
        } else {
            t.children@[0].children@.len() >= 1 && (tr matches TypeRef::Anonymous(w) && kind_read(
                spec,
                t.children@[0].children@[0],
                w,
            ))
        }
    } else if t.rule == Rule::Id {
        tr matches TypeRef::Named(s) && s@ == id_name(t)
    } else {
        t.children@.len() >= 1 && (tr matches TypeRef::Anonymous(w) && kind_read(spec, t.children@[0], w))
    }
}

/// Whether `ms` are what the members of a record read as, comments passed
/// over.
pub open spec fn fields_read(spec: Spec, items: Seq<WitxNode>, ms: Seq<RecordMemberType>) -> bool
    decreases items,
{
    if items.len() == 0 {
        ms.len() == 0
    } else {
        let f = items[items.len() - 1];
        if f.rule == Rule::Comment {
            fields_read(spec, items.subrange(0, items.len() - 1), ms)
        } else {
            &&& ms.len() > 0
            &&& f.children@.len() >= 2
            &&& f.children@[1].children@.len() >= 1
            &&& ms[ms.len() - 1].name@ == id_name(f.children@[0])
            &&& ref_read(spec, f.children@[1].children@[0], ms[ms.len() - 1].tref)
            &&& fields_read(spec, items.subrange(0, items.len() - 1), ms.subrange(0, ms.len() - 1))
        }
    }
}

/// Once reading the members of a record has met an error, more members keep
/// it.
proof fn lemma_fields_error_prefix(spec: Spec, items: Seq<WitxNode>, k: int)
    requires
        0 <= k <= items.len(),
        fields_error(spec, items.subrange(0, k)) is Some,
    ensures
        fields_error(spec, items) == fields_error(spec, items.subrange(0, k)),
    decreases items.len() - k,
{
    if k < items.len() {
        assert(items.subrange(0, k + 1).subrange(0, k) == items.subrange(0, k));
        lemma_fields_error_prefix(spec, items, k + 1);
    } else {
        assert(items.subrange(0, k) == items);
    }
}

/// The representation that an integer representation's rule names.
fn repr(n: &WitxNode) -> (r: Result<IntRepr, SpecError>)
    ensures
        match repr_of(n.rule) {
            Some(x) => r == Ok::<IntRepr, SpecError>(x),
            None => r == Err::<IntRepr, SpecError>(SpecError::UnknownIntRepr),
        },
{
    match n.rule {
        Rule::U8 => Ok(IntRepr::U8),
        Rule::U16 => Ok(IntRepr::U16),
        Rule::U32 => Ok(IntRepr::U32),
        Rule::U64 => Ok(IntRepr::U64),
        _ => Err(SpecError::UnknownIntRepr),
    }
}

/// Reads a type reference: the name it gives, or the type it writes out.
fn read_ref(spec: &Spec, t: &WitxNode) -> (r: Result<TypeRef, SpecError>)
    requires
        spec.wf(),
        ref_shaped(*spec, *t),
    ensures
        match ref_error(*spec, *t) {
            Some(e) => r == Err::<TypeRef, SpecError>(e),
            None => r matches Ok(tr) && ref_read(*spec, *t, tr),
        },
    decreases t,
{
    if t.rule == Rule::TypeRef {
        let x = &t.children[0];
        if x.rule == Rule::Id {
            Ok(TypeRef::Named(id_of(x)))
        } else {
            match read_kind(spec, &x.children[0]) {
                Ok(w) => Ok(TypeRef::Anonymous(w)),
                Err(e) => Err(e),
            }
        }
    } else if t.rule == Rule::Id {
        Ok(TypeRef::Named(id_of(t)))
    } else {
        match read_kind(spec, &t.children[0]) {
            Ok(w) => Ok(TypeRef::Anonymous(w)),
            Err(e) => Err(e),
        }
    }
}

/// Reads the members of a record, comments passed over.
fn read_fields(spec: &Spec, items: &Vec<WitxNode>) -> (r: Result<Vec<RecordMemberType>, SpecError>)
    requires
        spec.wf(),
        forall|i: int|
            0 <= i < items@.len() && fields_error(*spec, items@.subrange(0, i)) is None && (#[trigger] items@[i]).rule
                == Rule::RecordField ==> field_shaped(*spec, items@[i]),
    ensures
        match fields_error(*spec, items@) {
            Some(e) => r == Err::<Vec<RecordMemberType>, SpecError>(e),
            None => r matches Ok(ms) && fields_read(*spec, items@, ms@),
        },
    decreases items,
{
    let mut ms: Vec<RecordMemberType> = Vec::new();
    let mut i: usize = 0;
    while i < items.len()
        invariant
            spec.wf(),
            forall|k: int|
                0 <= k < items@.len() && fields_error(*spec, items@.subrange(0, k)) is None && (#[trigger] items@[k]).rule
                    == Rule::RecordField ==> field_shaped(*spec, items@[k]),
            i <= items@.len(),
            fields_error(*spec, items@.subrange(0, i as int)) is None,
            fields_read(*spec, items@.subrange(0, i as int), ms@),
        decreases items@.len() - i,
    {
        let f = &items[i];
        let ghost before = ms@;
        let ghost next = items@.subrange(0, i + 1);
        assert(next.subrange(0, i as int) == items@.subrange(0, i as int));
        assert(next[i as int] == *f);
        if f.rule == Rule::Comment {
        } else if f.rule == Rule::RecordField {
            assert(field_shaped(*spec, items@[i as int]));
            let name = id_of(&f.children[0]);
            match read_ref(spec, &f.children[1].children[0]) {
                Ok(tref) => {
                    ms.push(RecordMemberType { name, tref });
                    assert(ms@.subrange(0, ms@.len() - 1) == before);
                },
                Err(e) => {
                    proof {
                        lemma_fields_error_prefix(*spec, items@, i + 1);
                    }
                    return Err(e);
                },
            }
        } else {
            proof {
                lemma_fields_error_prefix(*spec, items@, i + 1);
            }
            return Err(SpecError::UnexpectedField);
        }
        i = i + 1;
    }
    assert(items@.subrange(0, items@.len() as int) == items@);
    Ok(ms)
}

/// Reads a union: the tag's representation and, for each identifier paired
/// with a case of the tag, that case's name with the named type as its
/// payload.
fn read_union(spec: &Spec, p: &WitxNode) -> (r: Result<WasiType, SpecError>)
    requires
        spec.wf(),
        p.rule == Rule::Union,
        kind_shaped(*spec, *p),
    ensures
        match kind_error(*spec, *p) {
            Some(e) => r == Err::<WasiType, SpecError>(e),
            None => r matches Ok(w) && kind_read(*spec, *p, w),
        },
{
    let ghost items = items_of(*p);
    let tag_name = id_of(&p.children[0]);
    let d = match spec.types.get_by_key(tag_name.as_str()) {
        Some(d) => d,
        None => {
            return Err(SpecError::UnknownType);
        },
    };
    let tag = match &d.wasi {
        WasiType::Variant(v) => v,
        _ => {
            return Err(SpecError::UnexpectedType);
        },
    };
    let ghost tcases = tag.cases@;
    let n = p.children.len() - 1;
    let m = if n <= tag.cases.len() {
        n
    } else {
        tag.cases.len()
    };
    assert(m == union_len(*p, tcases));
    let mut cases: Vec<VariantCaseType> = Vec::new();
    let mut j: usize = 0;
    assert(spec.type_named(id_name(p.children@[0])) == Some(*d));
    while j < m
        invariant
            p.rule == Rule::Union,
            p.children@.len() >= 1,
            spec.type_named(id_name(p.children@[0])) == Some(*d),
            d.wasi == WasiType::Variant(*tag),
            items == items_of(*p),
            tcases == tag.cases@,
            m == union_len(*p, tcases),
            m <= tcases.len(),
            m + 1 <= p.children@.len(),
            j <= m,
            !union_bad(items, j as int),
            forall|k: int|
                0 <= k < m && !union_bad(items, k) && (#[trigger] items[k]).rule == Rule::Id ==> is_id(items[k]),
            cases@.len() == union_cases(items, tcases, j as int).len(),
            forall|i: int|
                0 <= i < cases@.len() ==> (#[trigger] cases@[i]).name == union_cases(items, tcases, j as int)[i].0
                    && (cases@[i].payload matches Some(TypeRef::Named(s)) && s@ == union_cases(items, tcases, j as int)[i].1),
        decreases m - j,
    {
        let item = &p.children[j + 1];
        assert(items[j as int] == *item);
        let ghost before = cases@;
        if item.rule == Rule::Id {
            let name = id_of(item);
            cases.push(VariantCaseType { name: tag.cases[j].name.clone(), payload: Some(TypeRef::Named(name)) });
            proof {
                let out2 = union_cases(items, tcases, j + 1);
                assert forall|i: int| 0 <= i < cases@.len() implies (#[trigger] cases@[i]).name == out2[i].0 && (
                cases@[i].payload matches Some(TypeRef::Named(s)) && s@ == out2[i].1) by {
                    if i < before.len() {
                        assert(cases@[i] == before[i]);
                    }
                }
            }
        } else if item.rule == Rule::Comment {
        } else {
            assert(is_bad_item(items[j as int]));
            assert(union_bad(items, m as int));
            return Err(SpecError::UnexpectedField);
        }
        assert forall|k: int| 0 <= k < j + 1 implies !is_bad_item(#[trigger] items[k]) by {
            if k < j {
                assert(!union_bad(items, j as int));
            }
        }
        j = j + 1;
    }
    Ok(WasiType::Variant(VariantType { tag_repr: tag.tag_repr, cases }))
}

/// Reads the node of a type's kind.
fn read_kind(spec: &Spec, p: &WitxNode) -> (r: Result<WasiType, SpecError>)
    requires
        spec.wf(),
        kind_shaped(*spec, *p),
    ensures
        match kind_error(*spec, *p) {
            Some(e) => r == Err::<WasiType, SpecError>(e),
            None => r matches Ok(w) && kind_read(*spec, *p, w),
        },
    decreases p,
{
    match p.rule {
        Rule::S64 => Ok(WasiType::S64),
        Rule::U8 => Ok(WasiType::U8),
        Rule::U16 => Ok(WasiType::U16),
        Rule::U32 => Ok(WasiType::U32),
        Rule::U64 => Ok(WasiType::U64),
        Rule::Handle => Ok(WasiType::Handle),
        Rule::String => Ok(WasiType::String),
        Rule::Flags => {
            let fields = match read_names(p) {
                Ok(v) => v,
                Err(e) => {
                    return Err(e);
                },
            };
            match repr(&p.children[0].children[0]) {
                Ok(repr) => Ok(WasiType::Flags(FlagsType { repr, fields })),
                Err(e) => Err(e),
            }
        },
        Rule::Enum => {
            let names = match read_names(p) {
                Ok(v) => v,
                Err(e) => {
                    return Err(e);
                },
            };
            let tag_repr = match repr(&p.children[0].children[0]) {
                Ok(x) => x,
                Err(e) => {
                    return Err(e);
                },
            };
            let mut cases: Vec<VariantCaseType> = Vec::new();
            let mut i: usize = 0;
            while i < names.len()
                invariant
                    i <= names@.len(),
                    cases@.len() == i,
                    forall|k: int| 0 <= k < i ==> (#[trigger] cases@[k]).name == names@[k] && cases@[k].payload is None,
                decreases names@.len() - i,
            {
                cases.push(VariantCaseType { name: names[i].clone(), payload: None });
                i = i + 1;
            }
            Ok(WasiType::Variant(VariantType { tag_repr, cases }))
        },
        Rule::Union => read_union(spec, p),
        Rule::Expected => {
            let expected = if p.children.len() >= 2 {
                match read_ref(spec, &p.children[0]) {
                    Ok(t) => Some(t),
                    Err(e) => {
                        return Err(e);
                    },
                }
            } else {
                None
            };
            let last = if p.children.len() >= 2 {
                1
            } else {
                0
            };
            let error = match read_ref(spec, &p.children[last]) {
                Ok(t) => t,
                Err(e) => {
                    return Err(e);
                },
            };
            proof {
                reveal_strlit("expected");
                reveal_strlit("error");
            }
            let cases = vec![
                VariantCaseType { name: "expected".to_owned(), payload: expected },
                VariantCaseType { name: "error".to_owned(), payload: Some(error) },
            ];
            Ok(WasiType::Variant(VariantType { tag_repr: IntRepr::U8, cases }))
        },
        Rule::Record => match read_fields(spec, &p.children) {
            Ok(members) => Ok(WasiType::Record(RecordType { members })),
            Err(e) => Err(e),
        },
        Rule::List => match read_ref(spec, &p.children[0]) {
            Ok(item) => Ok(WasiType::List(Box::new(ListType { item }))),
            Err(e) => Err(e),
        },
        _ => Err(SpecError::UnexpectedType),
    }
}

/// Reads a type node of the specification: the type of its kind, where a
/// type it refers to by name stays a name. It fails with the first error
/// that reading meets: an unexpected type or field, a union whose tag type
/// the spec does not have, an unknown integer representation.
pub fn preview1_wasi_type(spec: &Spec, n: &WitxNode) -> (r: Result<WasiType, SpecError>)
    requires
        spec.wf(),
        n.children@.len() >= 1,
        kind_shaped(*spec, n.children@[0]),
    ensures
        match kind_error(*spec, n.children@[0]) {
            Some(e) => r == Err::<WasiType, SpecError>(e),
            None => r matches Ok(w) && kind_read(*spec, n.children@[0], w),
        },
{
    read_kind(spec, &n.children[0])
}


/// Flags and enums take the representation their repr node names, of the
/// same width: `u8` one byte, `u16` two, `u32` four, `u64` eight.
pub proof fn lemma_repr_width(spec: Spec, p: WitxNode, w: WasiType)
    requires
        p.rule == Rule::Flags || p.rule == Rule::Enum,
        kind_read(spec, p, w),
    ensures
        ({
            let r = p.children@[0].children@[0].rule;
            let repr = match w {
                WasiType::Flags(f) => f.repr,
                WasiType::Variant(v) => v.tag_repr,
                _ => IntRepr::U8,
            };
            &&& (w is Flags || w is Variant)
            &&& r == Rule::U8 ==> repr == IntRepr::U8 && repr.bytes() == 1
            &&& r == Rule::U16 ==> repr == IntRepr::U16 && repr.bytes() == 2
            &&& r == Rule::U32 ==> repr == IntRepr::U32 && repr.bytes() == 4
            &&& r == Rule::U64 ==> repr == IntRepr::U64 && repr.bytes() == 8
        }),
{
}


/// A primitive type node reads as the primitive of the same name and width.
pub proof fn lemma_primitive_read(spec: Spec, p: WitxNode, w: WasiType)
    requires
        kind_read(spec, p, w),
    ensures
        p.rule == Rule::U8 ==> w == WasiType::U8,
        p.rule == Rule::U16 ==> w == WasiType::U16,
        p.rule == Rule::U32 ==> w == WasiType::U32,
        p.rule == Rule::U64 ==> w == WasiType::U64,
        p.rule == Rule::S64 ==> w == WasiType::S64,
        p.rule == Rule::Handle ==> w == WasiType::Handle,
        p.rule == Rule::String ==> w == WasiType::String,
{
}

} // verus!
