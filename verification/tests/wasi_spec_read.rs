use wazzi::wasi_spec::read::preview1_wasi_type;
use wazzi::wasi_spec::types::{
    FlagsType, IntRepr, ListType, RecordMemberType, RecordType, Spec, TypeDef, TypeRef, VariantCaseType, VariantType,
    WasiType,
};
use wazzi::witx::{Rule, SpecError, WitxNode};

fn node(rule: Rule, text: &str, children: Vec<WitxNode>) -> WitxNode {
    WitxNode { rule, text: text.to_string(), children }
}

fn leaf(rule: Rule) -> WitxNode {
    node(rule, "", vec![])
}

fn id(text: &str) -> WitxNode {
    node(Rule::Id, text, vec![])
}

fn ty(kind: WitxNode) -> WitxNode {
    node(Rule::Type, "", vec![kind])
}

fn tref(inner: WitxNode) -> WitxNode {
    node(Rule::TypeRef, "", vec![inner])
}

fn repr(rule: Rule) -> WitxNode {
    node(Rule::IntRepr, "", vec![leaf(rule)])
}

fn case(name: &str) -> VariantCaseType {
    VariantCaseType { name: name.to_string(), payload: None }
}

/// The integer types and `tag`, an enum of three cases.
fn spec() -> Spec {
    let mut s = Spec::new();
    let tag = WasiType::Variant(VariantType { tag_repr: IntRepr::U8, cases: vec![case("a"), case("b"), case("c")] });
    s.types.push("tag".to_string(), TypeDef { name: "tag".to_string(), wasi: tag, state: None });
    s
}

#[test]
fn unions_pair_nodes_with_tag_cases_comments_included() {
    let s = spec();
    let n = ty(node(Rule::Union, "", vec![id("$tag"), id("$u32"), leaf(Rule::Comment), id("$x"), id("$extra")]));
    let expected = WasiType::Variant(VariantType {
        tag_repr: IntRepr::U8,
        cases:    vec![
            VariantCaseType { name: "a".to_string(), payload: Some(TypeRef::Named("u32".to_string())) },
            VariantCaseType { name: "c".to_string(), payload: Some(TypeRef::Named("x".to_string())) },
        ],
    });
    assert_eq!(preview1_wasi_type(&s, &n).unwrap(), expected);
}

#[test]
fn unions_need_a_known_tag_and_plain_items() {
    let s = spec();
    let n = ty(node(Rule::Union, "", vec![id("$nope"), id("$u32")]));
    assert_eq!(preview1_wasi_type(&s, &n).unwrap_err(), SpecError::UnknownType);
    let n = ty(node(Rule::Union, "", vec![id("$tag"), leaf(Rule::U8)]));
    assert_eq!(preview1_wasi_type(&s, &n).unwrap_err(), SpecError::UnexpectedField);
}

#[test]
fn expected_with_only_an_error_has_no_payload_for_success() {
    let s = spec();
    let n = ty(node(Rule::Expected, "", vec![tref(id("$errno"))]));
    let expected = WasiType::Variant(VariantType {
        tag_repr: IntRepr::U8,
        cases:    vec![
            case("expected"),
            VariantCaseType { name: "error".to_string(), payload: Some(TypeRef::Named("errno".to_string())) },
        ],
    });
    assert_eq!(preview1_wasi_type(&s, &n).unwrap(), expected);
    let n = ty(node(Rule::Expected, "", vec![tref(id("$size")), tref(id("$errno"))]));
    match preview1_wasi_type(&s, &n).unwrap() {
        WasiType::Variant(v) => {
            assert_eq!(v.cases[0].payload, Some(TypeRef::Named("size".to_string())));
            assert_eq!(v.cases[1].payload, Some(TypeRef::Named("errno".to_string())));
        },
        other => panic!("{:?}", other),
    }
}

#[test]
fn records_keep_names_and_write_out_anonymous_types() {
    let s = spec();
    let list = ty(node(Rule::List, "", vec![tref(id("$u8"))]));
    let n = ty(node(
        Rule::Record,
        "",
        vec![
            node(Rule::RecordField, "", vec![id("$buf"), tref(list)]),
            leaf(Rule::Comment),
            node(Rule::RecordField, "", vec![id("$len"), tref(id("$size"))]),
        ],
    ));
    let expected = WasiType::Record(RecordType {
        members: vec![
            RecordMemberType {
                name: "buf".to_string(),
                tref: TypeRef::Anonymous(WasiType::List(Box::new(ListType { item: TypeRef::Named("u8".to_string()) }))),
            },
            RecordMemberType { name: "len".to_string(), tref: TypeRef::Named("size".to_string()) },
        ],
    });
    assert_eq!(preview1_wasi_type(&s, &n).unwrap(), expected);
    let bad = ty(node(Rule::Record, "", vec![leaf(Rule::U8)]));
    assert_eq!(preview1_wasi_type(&s, &bad).unwrap_err(), SpecError::UnexpectedField);
}

#[test]
fn flags_and_enums_read_names_and_repr() {
    let s = spec();
    let n = ty(node(Rule::Flags, "", vec![repr(Rule::U16), id("$read"), leaf(Rule::Comment), id("$write")]));
    assert_eq!(
        preview1_wasi_type(&s, &n).unwrap(),
        WasiType::Flags(FlagsType { repr: IntRepr::U16, fields: vec!["read".to_string(), "write".to_string()] })
    );
    let n = ty(node(Rule::Enum, "", vec![repr(Rule::U8), id("$x")]));
    assert_eq!(
        preview1_wasi_type(&s, &n).unwrap(),
        WasiType::Variant(VariantType { tag_repr: IntRepr::U8, cases: vec![case("x")] })
    );
    let n = ty(node(Rule::Enum, "", vec![repr(Rule::S64), id("$x")]));
    assert_eq!(preview1_wasi_type(&s, &n).unwrap_err(), SpecError::UnknownIntRepr);
    let n = ty(node(Rule::Flags, "", vec![repr(Rule::S64), leaf(Rule::U8)]));
    assert_eq!(preview1_wasi_type(&s, &n).unwrap_err(), SpecError::UnexpectedField);
    assert_eq!(preview1_wasi_type(&s, &ty(leaf(Rule::Comment))).unwrap_err(), SpecError::UnexpectedType);
    assert_eq!(preview1_wasi_type(&s, &ty(leaf(Rule::Handle))).unwrap(), WasiType::Handle);
}
