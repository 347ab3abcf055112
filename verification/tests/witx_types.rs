use wazzi::wasi::types::{IntRepr, Spec, WasiType, WazziType};
use wazzi::wasi::effects::{Expr, Stmt};
use wazzi::wasi::value::WasiValue;
use wazzi::witx::{preview1_type, to_stmt, Rule, SpecError, WitxNode};

fn node(rule: Rule, text: &str, children: Vec<WitxNode>) -> WitxNode {
    WitxNode { rule, text: text.to_string(), children }
}

fn leaf(rule: Rule) -> WitxNode {
    node(rule, "", vec![])
}

fn id(text: &str) -> WitxNode {
    node(Rule::Id, text, vec![])
}

fn ty(kind: WitxNode) -> WitxNode {
    node(Rule::Type, "", vec![kind])
}

fn tref_id(text: &str) -> WitxNode {
    node(Rule::TypeRef, "", vec![id(text)])
}

fn repr(rule: Rule) -> WitxNode {
    node(Rule::IntRepr, "", vec![leaf(rule)])
}

fn plain(wasi: WasiType) -> WazziType {
    WazziType { name: None, wasi, attributes: Vec::new() }
}

/// A spec with `size` (u32) and `errno` (an enum of two cases).
fn spec() -> Spec {
    let errno = WasiType::Variant(wazzi::wasi::types::VariantType {
        tag_repr: IntRepr::U16,
        cases:    vec![
            wazzi::wasi::types::VariantCaseType { name: "success".to_string(), payload: None },
            wazzi::wasi::types::VariantCaseType { name: "badf".to_string(), payload: None },
        ],
    });
    Spec {
        types:          vec![plain(WasiType::U32), plain(errno)],
        interfaces:     Vec::new(),
        types_map:      vec![("size".to_string(), 0), ("errno".to_string(), 1)],
        interfaces_map: Vec::new(),
    }
}

#[test]
fn primitives_are_read() {
    let s = spec();
    let t = preview1_type(&s, &ty(leaf(Rule::U64)), Some("timestamp".to_string()), &[]).unwrap();
    assert_eq!(t.name, Some("timestamp".to_string()));
    assert_eq!(t.wasi, WasiType::U64);
    assert!(t.attributes.is_empty());
}

#[test]
fn flags_skip_comments_and_read_their_repr() {
    let s = spec();
    let n = ty(node(
        Rule::Flags,
        "",
        vec![repr(Rule::U16), id("$read"), leaf(Rule::Comment), id("$write")],
    ));
    match preview1_type(&s, &n, None, &[]).unwrap().wasi {
        WasiType::Flags(f) => {
            assert_eq!(f.repr, IntRepr::U16);
            assert_eq!(f.fields, vec!["read".to_string(), "write".to_string()]);
        },
        other => panic!("{:?}", other),
    }
}

#[test]
fn enum_cases_have_no_payload() {
    let s = spec();
    let n = ty(node(Rule::Enum, "", vec![repr(Rule::U8), id("$a"), id("$b")]));
    match preview1_type(&s, &n, None, &[]).unwrap().wasi {
        WasiType::Variant(v) => {
            assert_eq!(v.tag_repr, IntRepr::U8);
            assert_eq!(v.cases.len(), 2);
            assert_eq!(v.cases[1].name, "b");
            assert!(v.cases[1].payload.is_none());
        },
        other => panic!("{:?}", other),
    }
}

#[test]
fn bad_items_and_reprs_fail() {
    let s = spec();
    let bad_item = ty(node(Rule::Flags, "", vec![repr(Rule::U8), leaf(Rule::Other)]));
    assert_eq!(preview1_type(&s, &bad_item, None, &[]).unwrap_err(), SpecError::UnexpectedField);
    let bad_repr = ty(node(Rule::Flags, "", vec![repr(Rule::S64), id("$a")]));
    assert_eq!(preview1_type(&s, &bad_repr, None, &[]).unwrap_err(), SpecError::UnknownIntRepr);
    let bad_type = ty(leaf(Rule::Other));
    assert_eq!(preview1_type(&s, &bad_type, None, &[]).unwrap_err(), SpecError::UnexpectedType);
}

#[test]
fn records_copy_named_member_types() {
    let s = spec();
    let field = |name: &str, t: WitxNode| node(Rule::RecordField, "", vec![id(name), t]);
    let n = ty(node(
        Rule::Record,
        "",
        vec![
            field("$buf_len", tref_id("$size")),
            leaf(Rule::Comment),
            field("$inner", node(Rule::TypeRef, "", vec![ty(leaf(Rule::U8))])),
        ],
    ));
    match preview1_type(&s, &n, None, &[]).unwrap().wasi {
        WasiType::Record(r) => {
            assert_eq!(r.members.len(), 2);
            assert_eq!(r.members[0].name, "buf_len");
            assert_eq!(r.members[0].ty, plain(WasiType::U32));
            assert_eq!(r.members[1].ty, plain(WasiType::U8));
        },
        other => panic!("{:?}", other),
    }
    let unknown = ty(node(Rule::Record, "", vec![field("$x", tref_id("$nope"))]));
    assert_eq!(preview1_type(&s, &unknown, None, &[]).unwrap_err(), SpecError::UnknownType);
}

#[test]
fn unions_take_the_tag_case_names() {
    let s = spec();
    let n = ty(node(Rule::Union, "", vec![id("$errno"), id("$size"), id("$size")]));
    match preview1_type(&s, &n, None, &[]).unwrap().wasi {
        WasiType::Variant(v) => {
            assert_eq!(v.tag_repr, IntRepr::U16);
            assert_eq!(v.cases.len(), 2);
            assert_eq!(v.cases[0].name, "success");
            assert_eq!(v.cases[1].name, "badf");
            assert_eq!(v.cases[1].payload, Some(plain(WasiType::U32)));
        },
        other => panic!("{:?}", other),
    }
    let no_tag = ty(node(Rule::Union, "", vec![id("$nope")]));
    assert_eq!(preview1_type(&s, &no_tag, None, &[]).unwrap_err(), SpecError::UnknownType);
}

#[test]
fn expected_and_list_refer_to_types() {
    let s = spec();
    let n = ty(node(Rule::Expected, "", vec![tref_id("$size"), tref_id("$errno")]));
    match preview1_type(&s, &n, None, &[]).unwrap().wasi {
        WasiType::Variant(v) => {
            assert_eq!(v.tag_repr, IntRepr::U8);
            assert_eq!(v.cases[0].name, "expected");
            assert_eq!(v.cases[0].payload, Some(plain(WasiType::U32)));
            assert_eq!(v.cases[1].name, "error");
        },
        other => panic!("{:?}", other),
    }
    let l = ty(node(Rule::List, "", vec![tref_id("$size")]));
    match preview1_type(&s, &l, None, &[]).unwrap().wasi {
        WasiType::List(item) => assert_eq!(item.item, plain(WasiType::U32)),
        other => panic!("{:?}", other),
    }
}

#[test]
fn attribute_annotations_become_attributes() {
    let s = spec();
    let annot = node(
        Rule::AnnotationExpr,
        "",
        vec![node(Rule::Annotation, "@attribute", vec![]), id("$offset"), id("$size")],
    );
    let t = preview1_type(&s, &ty(leaf(Rule::Handle)), Some("fd".to_string()), &[annot]).unwrap();
    assert_eq!(t.attributes.len(), 1);
    assert_eq!(t.attributes[0].0, "offset");
    assert_eq!(t.attributes[0].1, plain(WasiType::U32));
}

#[test]
fn effect_statements_set_attributes() {
    let s = spec();
    let set_errno = node(
        Rule::AttrSet,
        "",
        vec![id("$fd"), id("$last"), node(Rule::VariantConst, "", vec![id("$errno"), id("$badf")])],
    );
    match to_stmt(&s, &set_errno).unwrap() {
        Stmt::AttrSet(a) => {
            assert_eq!(a.resource, "fd");
            assert_eq!(a.attr, "last");
            match a.value {
                Expr::WasiValue(WasiValue::Variant(v)) => {
                    assert_eq!(v.case_idx, 1);
                    assert!(v.payload.is_none());
                },
                other => panic!("{:?}", other),
            }
        },
    }
    let set_offset = node(
        Rule::AttrSet,
        "",
        vec![id("$fd"), id("$offset"), node(Rule::S64Const, "", vec![node(Rule::Other, "-5", vec![])])],
    );
    match to_stmt(&s, &set_offset).unwrap() {
        Stmt::AttrSet(a) => assert_eq!(a.value, Expr::WasiValue(WasiValue::S64(-5))),
    }
    let bad = node(
        Rule::AttrSet,
        "",
        vec![id("$fd"), id("$offset"), node(Rule::S64Const, "", vec![node(Rule::Other, "5x", vec![])])],
    );
    assert_eq!(to_stmt(&s, &bad).unwrap_err(), SpecError::BadInteger);
}
