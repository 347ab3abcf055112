use wazzi::wasi_spec::index::IndexSpace;
use wazzi::wasi_spec::types::{
    FlagsType, IntRepr, PointerType, RecordMemberType, RecordType, Spec, TypeDef, TypeRef,
    VariantCaseType, VariantType, WasiType,
};
use wazzi::wasi_spec::value::{
    FlagsValue, ListValue, PointerValue, RecordValue, VariantValue, WasiValue,
};

#[test]
fn index_space_push_and_get() {
    let mut s: IndexSpace<u32> = IndexSpace::new();
    assert_eq!(s.push("a".to_string(), 1), 0);
    assert_eq!(s.push("b".to_string(), 2), 1);
    assert_eq!(s.get_by_key("a"), Some(&1));
    assert_eq!(s.get_by_key("b"), Some(&2));
    assert_eq!(s.get_by_key("c"), None);
    // Pushing under a name already there replaces its value in place.
    assert_eq!(s.push("a".to_string(), 10), 0);
    assert_eq!(s.get_by_key("a"), Some(&10));
    assert_eq!(s.len(), 2);
    assert_eq!(s.find("b"), Some(1));
    assert_eq!(s.get_by_index(1), Some(&2));
    assert_eq!(s.get_by_index(2), None);
}

#[test]
fn spec_new_has_integer_types() {
    let spec = Spec::new();
    for name in ["s64", "u8", "u32", "u64"] {
        let d = spec.types.get_by_key(name).unwrap();
        assert_eq!(d.name, name);
        assert_eq!(d.state, None);
    }
    assert_eq!(spec.types.get_by_key("s64").unwrap().wasi, WasiType::S64);
    assert_eq!(spec.types.get_by_key("u16"), None);
    assert_eq!(spec.interfaces.len(), 0);
}

#[test]
fn resolve_named_and_builtin() {
    let mut spec = Spec::new();
    spec.types.push(
        "size".to_string(),
        TypeDef { name: "size".to_string(), wasi: WasiType::U32, state: None },
    );
    let named = TypeRef::Named("size".to_string());
    assert_eq!(named.resolve(&spec).name, "size");
    let builtin = TypeRef::Anonymous(WasiType::U64);
    assert_eq!(builtin.resolve(&spec).name, "u64");
    assert_eq!(builtin.resolve_wasi(&spec), &WasiType::U64);
    let anonymous = TypeRef::Anonymous(WasiType::String);
    assert_eq!(anonymous.resolve_wasi(&spec), &WasiType::String);
}

#[test]
fn value_accessors() {
    assert_eq!(WasiValue::U32(5).u32(), Some(5));
    assert_eq!(WasiValue::U64(5).u32(), None);
    assert_eq!(WasiValue::U64(6).u64(), Some(6));
    assert_eq!(WasiValue::Handle(3).handle(), Some(3));
    assert_eq!(WasiValue::U32(3).handle(), None);
    let s = WasiValue::String(b"x/y".to_vec());
    assert_eq!(s.string(), Some(&b"x/y"[..]));
    assert_eq!(WasiValue::U8(1).string(), None);
    let r = WasiValue::Record(RecordValue { members: vec![WasiValue::U8(1)] });
    assert_eq!(r.record(), Some(&RecordValue { members: vec![WasiValue::U8(1)] }));
    let v = WasiValue::Variant(Box::new(VariantValue { case_idx: 2, payload: None }));
    assert_eq!(v.variant().unwrap().case_idx, 2);
    assert!(WasiValue::U8(1).variant().is_none());
}

#[test]
fn record_mut_changes_the_record() {
    let mut r = WasiValue::Record(RecordValue { members: vec![WasiValue::U8(1)] });
    r.record_mut().unwrap().members.push(WasiValue::U8(2));
    assert_eq!(r, WasiValue::Record(RecordValue { members: vec![WasiValue::U8(1), WasiValue::U8(2)] }));
    let mut n = WasiValue::U8(0);
    assert!(n.record_mut().is_none());
    assert_eq!(n, WasiValue::U8(0));
}

#[test]
fn flags_and_variant_values() {
    let f = FlagsType { repr: IntRepr::U8, fields: vec!["read".into(), "write".into()] };
    assert_eq!(f.value(&["write".to_string()]), WasiValue::Flags(FlagsValue { fields: vec![false, true] }));
    let v = VariantType {
        tag_repr: IntRepr::U8,
        cases:    vec![
            VariantCaseType { name: "x".into(), payload: None },
            VariantCaseType { name: "y".into(), payload: None },
            VariantCaseType { name: "y".into(), payload: None },
        ],
    };
    assert_eq!(
        v.value_from_name("y", Some(WasiValue::U8(1))),
        Some(WasiValue::Variant(Box::new(VariantValue { case_idx: 1, payload: Some(WasiValue::U8(1)) })))
    );
    assert_eq!(v.value_from_name("z", None), None);
}

#[test]
fn zero_value_through_named_types() {
    let mut spec = Spec::new();
    spec.types.push(
        "fdflags".to_string(),
        TypeDef {
            name:  "fdflags".to_string(),
            wasi:  WasiType::Flags(FlagsType { repr: IntRepr::U16, fields: vec!["append".into(), "sync".into()] }),
            state: None,
        },
    );
    let record = WasiType::Record(RecordType {
        members: vec![
            RecordMemberType { name: "offset".into(), tref: TypeRef::Anonymous(WasiType::U64) },
            RecordMemberType { name: "flags".into(), tref: TypeRef::Named("fdflags".into()) },
        ],
    });
    assert_eq!(
        record.zero_value(&spec),
        WasiValue::Record(RecordValue {
            members: vec![WasiValue::U64(0), WasiValue::Flags(FlagsValue { fields: vec![false, false] })],
        })
    );
    let pointer = WasiType::Pointer(Box::new(PointerType { item: TypeRef::Anonymous(WasiType::U8), is_const: true }));
    assert_eq!(pointer.zero_value(&spec), WasiValue::Pointer(PointerValue { items: vec![] }));
    let variant = WasiType::Variant(VariantType {
        tag_repr: IntRepr::U8,
        cases:    vec![VariantCaseType { name: "some".into(), payload: Some(TypeRef::Named("u32".into())) }],
    });
    assert_eq!(
        variant.zero_value(&spec),
        WasiValue::Variant(Box::new(VariantValue { case_idx: 0, payload: Some(WasiValue::U32(0)) }))
    );
    assert_eq!(WasiType::U16.zero_value(&spec), WasiValue::U16(0));
    assert_eq!(WasiType::String.zero_value(&spec), WasiValue::String(vec![]));
    let _ = ListValue { items: vec![] };
}

#[test]
fn spec_value_duplicate_keeps_value() {
    let v = WasiValue::Record(RecordValue {
        members: vec![WasiValue::Pointer(PointerValue { items: vec![WasiValue::U16(7)] })],
    });
    assert_eq!(v.duplicate(), v);
}

fn layout_spec() -> Spec {
    let mut spec = Spec::new();
    spec.types.push("u16".into(), TypeDef { name: "u16".into(), wasi: WasiType::U16, state: None });
    spec.types.push(
        "filetype".into(),
        TypeDef {
            name:  "filetype".into(),
            wasi:  WasiType::Variant(VariantType {
                tag_repr: IntRepr::U8,
                cases:    vec![
                    VariantCaseType { name: "unknown".into(), payload: None },
                    VariantCaseType { name: "directory".into(), payload: None },
                ],
            }),
            state: None,
        },
    );
    spec.types.push(
        "fdflags".into(),
        TypeDef {
            name:  "fdflags".into(),
            wasi:  WasiType::Flags(FlagsType { repr: IntRepr::U16, fields: vec!["append".into()] }),
            state: None,
        },
    );
    spec
}

#[test]
fn fdstat_layout_through_names() {
    let spec = layout_spec();
    let record = RecordType {
        members: vec![
            RecordMemberType { name: "fs_filetype".into(), tref: TypeRef::Named("filetype".into()) },
            RecordMemberType { name: "fs_flags".into(), tref: TypeRef::Named("fdflags".into()) },
            RecordMemberType { name: "fs_rights_base".into(), tref: TypeRef::Anonymous(WasiType::U64) },
            RecordMemberType { name: "fs_rights_inheriting".into(), tref: TypeRef::Named("u64".into()) },
        ],
    };
    assert_eq!(record.alignment(&spec), 8);
    assert_eq!(record.mem_size(&spec), 24);
    let offsets: Vec<u32> = record.member_layout(&spec).iter().map(|l| l.offset).collect();
    assert_eq!(offsets, vec![0, 2, 8, 16]);
    let t = WasiType::Record(record);
    assert_eq!(t.alignment(&spec), 8);
    assert_eq!(t.mem_size(&spec), 24);
}

#[test]
fn pointer_layout() {
    let spec = layout_spec();
    // A pointer is four bytes wide, whatever it points to.
    let p = WasiType::Pointer(Box::new(PointerType { item: TypeRef::Anonymous(WasiType::U8), is_const: true }));
    assert_eq!(p.mem_size(&spec), 4);
    assert_eq!(p.alignment(&spec), 4);
}

#[test]
fn variant_layout_through_names() {
    let spec = layout_spec();
    let v = VariantType {
        tag_repr: IntRepr::U8,
        cases:    vec![
            VariantCaseType { name: "a".into(), payload: Some(TypeRef::Named("u64".into())) },
            VariantCaseType { name: "b".into(), payload: Some(TypeRef::Named("fdflags".into())) },
            VariantCaseType { name: "c".into(), payload: None },
        ],
    };
    assert_eq!(v.max_case_alignment(&spec), 8);
    assert_eq!(v.alignment(&spec), 8);
    assert_eq!(v.payload_offset(&spec), 8);
    assert_eq!(v.mem_size(&spec), 16);
    let small = VariantType {
        tag_repr: IntRepr::U32,
        cases:    vec![VariantCaseType { name: "x".into(), payload: Some(TypeRef::Named("u16".into())) }],
    };
    assert_eq!(small.payload_offset(&spec), 4);
    assert_eq!(small.mem_size(&spec), 8);
    assert_eq!(TypeRef::Named("filetype".into()).mem_size(&spec), 1);
    assert_eq!(TypeRef::Named("fdflags".into()).alignment(&spec), 2);
}

#[test]
fn wasi_type_by_name_prefers_state() {
    let mut spec = Spec::new();
    spec.types.push(
        "fd".to_string(),
        TypeDef { name: "fd".to_string(), wasi: WasiType::Handle, state: Some(WasiType::U64) },
    );
    let record = WasiType::Record(RecordType {
        members: vec![RecordMemberType { name: "a".into(), tref: TypeRef::Named("u8".into()) }],
    });
    spec.types.push(
        "pair".to_string(),
        TypeDef {
            name:  "pair".to_string(),
            wasi:  WasiType::Record(RecordType {
                members: vec![RecordMemberType { name: "a".into(), tref: TypeRef::Named("u8".into()) }],
            }),
            state: None,
        },
    );
    assert_eq!(spec.get_wasi_type("fd"), Some(WasiType::U64));
    assert_eq!(spec.get_wasi_type("u32"), Some(WasiType::U32));
    assert_eq!(spec.get_wasi_type("pair"), Some(record));
    assert_eq!(spec.get_wasi_type("nothing"), None);
}
