use wazzi::entropy::Entropy;
use wazzi::entropy::DataError;
use wazzi::wasi::layout::align_to;
use wazzi::wasi::types::{
    FlagsType, IntRepr, ListType, RecordMemberType, RecordType, VariantCaseType, VariantType,
    WasiType, WazziType,
};
use wazzi::wasi::value::{FlagsValue, VariantValue, WasiValue};

fn ty(wasi: WasiType) -> WazziType {
    WazziType { name: None, wasi, attributes: Vec::new() }
}

fn member(name: &str, wasi: WasiType) -> RecordMemberType {
    RecordMemberType { name: name.to_string(), ty: ty(wasi) }
}

fn flags(repr: IntRepr, names: &[&str]) -> WasiType {
    WasiType::Flags(FlagsType { repr, fields: names.iter().map(|n| n.to_string()).collect() })
}

fn case(name: &str, payload: Option<WasiType>) -> VariantCaseType {
    VariantCaseType { name: name.to_string(), payload: payload.map(ty) }
}

fn filetype() -> WasiType {
    WasiType::Variant(VariantType {
        tag_repr: IntRepr::U8,
        cases:    vec![
            case("unknown", None),
            case("block_device", None),
            case("character_device", None),
            case("directory", None),
            case("regular_file", None),
        ],
    })
}

fn fdstat() -> RecordType {
    RecordType {
        members: vec![
            member("fs_filetype", filetype()),
            member("fs_flags", flags(IntRepr::U16, &["append", "dsync", "nonblock", "rsync", "sync"])),
            member("fs_rights_base", flags(IntRepr::U64, &["fd_datasync", "fd_read"])),
            member("fs_rights_inheriting", flags(IntRepr::U64, &["fd_datasync", "fd_read"])),
        ],
    }
}

#[test]
fn align_to_rounds_up() {
    assert_eq!(align_to(0, 4), 0);
    assert_eq!(align_to(1, 4), 4);
    assert_eq!(align_to(4, 4), 4);
    assert_eq!(align_to(5, 8), 8);
    assert_eq!(align_to(17, 8), 24);
    assert_eq!(align_to(3, 1), 3);
}

#[test]
fn int_repr_sizes() {
    assert_eq!(IntRepr::U8.alignment(), 1);
    assert_eq!(IntRepr::U16.mem_size(), 2);
    assert_eq!(IntRepr::U32.alignment(), 4);
    assert_eq!(IntRepr::U64.mem_size(), 8);
}

#[test]
fn primitive_layouts() {
    assert_eq!(WasiType::U8.mem_size(), 1);
    assert_eq!(WasiType::U16.alignment(), 2);
    assert_eq!(WasiType::U32.mem_size(), 4);
    assert_eq!(WasiType::S64.alignment(), 8);
    assert_eq!(WasiType::Handle.mem_size(), 4);
    let list = WasiType::List(Box::new(ListType { item: ty(WasiType::U8) }));
    assert_eq!(list.mem_size(), 8);
    assert_eq!(list.alignment(), 4);
}

#[test]
fn fdstat_layout() {
    let record = fdstat();
    assert_eq!(record.alignment(), 8);
    assert_eq!(record.mem_size(), 24);
    let t = WasiType::Record(fdstat());
    assert_eq!(t.mem_size(), 24);
    assert_eq!(t.alignment(), 8);
}

#[test]
fn record_padding_between_and_after_members() {
    let record = RecordType {
        members: vec![
            member("a", WasiType::U8),
            member("b", WasiType::U32),
            member("c", WasiType::U8),
        ],
    };
    assert_eq!(record.alignment(), 4);
    assert_eq!(record.mem_size(), 12);
}

#[test]
fn empty_record_layout() {
    let record = RecordType { members: vec![] };
    assert_eq!(record.alignment(), 1);
    assert_eq!(record.mem_size(), 0);
}

#[test]
fn variant_layout() {
    let variant = VariantType {
        tag_repr: IntRepr::U8,
        cases:    vec![case("a", Some(WasiType::U64)), case("b", Some(WasiType::U32)), case("c", None)],
    };
    assert_eq!(variant.max_case_alignment(), 8);
    assert_eq!(variant.alignment(), 8);
    assert_eq!(variant.payload_offset(), 8);
    assert_eq!(variant.mem_size(), 16);
}

#[test]
fn enum_like_variant_layout() {
    let v = match filetype() {
        WasiType::Variant(v) => v,
        _ => unreachable!(),
    };
    assert_eq!(v.payload_offset(), 1);
    assert_eq!(v.mem_size(), 1);
    assert_eq!(v.alignment(), 1);
}

#[test]
fn variant_with_u16_tag_and_u8_payload() {
    let variant = VariantType {
        tag_repr: IntRepr::U16,
        cases:    vec![case("x", Some(WasiType::U8))],
    };
    assert_eq!(variant.payload_offset(), 2);
    assert_eq!(variant.mem_size(), 4);
    assert_eq!(variant.alignment(), 2);
}

#[test]
fn flags_value_sets_named_fields() {
    let f = FlagsType { repr: IntRepr::U16, fields: vec!["a".into(), "b".into(), "c".into()] };
    let v = f.value(&["c".to_string(), "a".to_string(), "zzz".to_string()]);
    assert_eq!(v, WasiValue::Flags(FlagsValue { fields: vec![true, false, true] }));
    let none = f.value(&[]);
    assert_eq!(none, WasiValue::Flags(FlagsValue { fields: vec![false, false, false] }));
}

#[test]
fn value_from_name_picks_first_case() {
    let v = match filetype() {
        WasiType::Variant(v) => v,
        _ => unreachable!(),
    };
    assert_eq!(
        v.value_from_name("directory", None),
        Some(WasiValue::Variant(Box::new(VariantValue { case_idx: 3, payload: None })))
    );
    assert_eq!(v.value_from_name("socket", None), None);
}

#[test]
fn zero_values() {
    assert_eq!(WasiType::S64.zero_value(), WasiValue::S64(0));
    assert_eq!(WasiType::U64.zero_value(), WasiValue::U64(0));
    assert_eq!(WasiType::Handle.zero_value(), WasiValue::Handle(0));
    assert_eq!(WasiType::String.zero_value(), WasiValue::String(vec![]));
    assert_eq!(
        flags(IntRepr::U8, &["a", "b"]).zero_value(),
        WasiValue::Flags(FlagsValue { fields: vec![false, false] })
    );
    let variant = WasiType::Variant(VariantType {
        tag_repr: IntRepr::U8,
        cases:    vec![case("some", Some(WasiType::U64)), case("none", None)],
    });
    assert_eq!(
        variant.zero_value(),
        WasiValue::Variant(Box::new(VariantValue { case_idx: 0, payload: Some(WasiValue::U64(0)) }))
    );
}

#[test]
fn arbitrary_values_fit_their_types() {
    let data = [7u8, 1, 2, 3, 4, 5, 6, 7, 8, 9, 10, 11, 12, 13, 14, 15, 16, 17, 18, 19, 20];
    let mut u = Entropy::new(&data);
    let v = WasiType::U64.arbitrary_value(&mut u).unwrap();
    assert_eq!(v, WasiValue::U64(u64::from_le_bytes([7, 1, 2, 3, 4, 5, 6, 7])));

    let mut u = Entropy::new(&data);
    let f = flags(IntRepr::U8, &["a", "b", "c"]).arbitrary_value(&mut u).unwrap();
    assert_eq!(f, WasiValue::Flags(FlagsValue { fields: vec![true, true, false] }));

    let variant = WasiType::Variant(VariantType {
        tag_repr: IntRepr::U8,
        cases:    vec![case("a", None), case("b", Some(WasiType::Handle))],
    });
    let mut u = Entropy::new(&data);
    match variant.arbitrary_value(&mut u).unwrap() {
        WasiValue::Variant(b) => {
            assert!(b.case_idx < 2);
            assert_eq!(b.payload.is_some(), b.case_idx == 1);
        },
        other => panic!("not a variant: {other:?}"),
    }
}

#[test]
fn arbitrary_value_of_empty_variant_fails() {
    let variant = WasiType::Variant(VariantType { tag_repr: IntRepr::U8, cases: vec![] });
    let mut u = Entropy::new(&[1, 2, 3]);
    assert_eq!(variant.arbitrary_value(&mut u), Err(DataError::EmptyChoose));
}

#[test]
fn duplicate_keeps_value() {
    let v = WasiValue::Variant(Box::new(VariantValue {
        case_idx: 1,
        payload:  Some(WasiValue::String(b"abc".to_vec())),
    }));
    assert_eq!(v.duplicate(), v);
}

#[test]
fn integers_are_read_least_significant_byte_first() {
    let data = [1u8, 2, 0, 0, 0, 0, 0, 0, 7];
    let mut u = Entropy::new(&data);
    assert_eq!(WasiType::U64.arbitrary_value(&mut u), Ok(WasiValue::U64(0x0201)));
    assert_eq!(WasiType::Handle.arbitrary_value(&mut u), Ok(WasiValue::Handle(7)));
    assert_eq!(WasiType::Handle.arbitrary_value(&mut u), Ok(WasiValue::Handle(0)));
    let neg = [0xffu8; 8];
    let mut u = Entropy::new(&neg);
    assert_eq!(WasiType::S64.arbitrary_value(&mut u), Ok(WasiValue::S64(-1)));
}

#[test]
fn flags_take_one_byte_each() {
    let data = [1u8, 2, 3, 4];
    let mut u = Entropy::new(&data);
    let t = flags(IntRepr::U8, &["a", "b", "c"]);
    assert_eq!(t.arbitrary_value(&mut u), Ok(WasiValue::Flags(FlagsValue { fields: vec![true, false, true] })));
    assert_eq!(WasiType::Handle.arbitrary_value(&mut u), Ok(WasiValue::Handle(4)));
}

#[test]
fn strings_are_drawn_as_flagged_bytes() {
    let data = [1u8, b'x', 3, b'y', 0, 9];
    let mut u = Entropy::new(&data);
    assert_eq!(WasiType::String.arbitrary_value(&mut u), Ok(WasiValue::String(b"xy".to_vec())));
    assert_eq!(WasiType::Handle.arbitrary_value(&mut u), Ok(WasiValue::Handle(9)));
}
