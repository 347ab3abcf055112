use wazzi::entropy::Entropy;
use wazzi::entropy::DataError;
use wazzi::env::{Environment, RuntimeContext};
use wazzi::resource::{Resource, ResourceIdx};
use wazzi::strategy::StatelessStrategy;
use wazzi::wasi_spec::types::{
    FlagsType, Function, FunctionParam, Interface, IntRepr, PointerType, RecordMemberType,
    RecordType, Spec, TypeDef, TypeRef, VariantCaseType, VariantType, WasiType,
};
use wazzi::wasi_spec::value::{PointerValue, RecordValue, VariantValue, WasiValue};

/// A spec with a resource type `fd` and two functions: `fd_close`, which
/// takes an `fd`, and `random_get`, which takes a length.
fn call_spec() -> Spec {
    let mut spec = Spec::new();
    spec.types.push(
        "fd".into(),
        TypeDef { name: "fd".into(), wasi: WasiType::Handle, state: Some(WasiType::U64) },
    );
    let mut interface = Interface::new();
    interface.functions.push((
        "fd_close".into(),
        Function {
            name:        "fd_close".into(),
            params:      vec![FunctionParam { name: "fd".into(), tref: TypeRef::Named("fd".into()) }],
            results:     vec![],
            return_type: None,
            input_contract: None,
            output_contract: None,
        },
    ));
    interface.functions.push((
        "random_get".into(),
        Function {
            name:        "random_get".into(),
            params:      vec![FunctionParam {
                name: "buf_len".into(),
                tref: TypeRef::Anonymous(WasiType::U32),
            }],
            results:     vec![],
            return_type: None,
            input_contract: None,
            output_contract: None,
        },
    ));
    spec.interfaces.push("wasi_snapshot_preview1".into(), interface);
    spec
}

fn function_named<'s>(spec: &'s Spec, name: &str) -> &'s Function {
    let interface = spec.interfaces.get_by_key("wasi_snapshot_preview1").unwrap();
    &interface.functions.iter().find(|(n, _)| n == name).unwrap().1
}

#[test]
fn drawn_string_uses_its_alphabet() {
    let spec = Spec::new();
    let data = [9u8, 0, 1, 2, 3, 4, 5, 6, 7, 8, 9, 10, 11];
    let mut u = Entropy::new(&data);
    match WasiType::String.arbitrary_value(&spec, &mut u) {
        Ok(WasiValue::String(bytes)) => {
            assert_eq!(bytes.len(), 9);
            assert!(bytes.iter().all(|b| b"./a".contains(b)));
            // Three different inputs are not all mapped to one byte.
            assert!(bytes.iter().any(|&b| b != bytes[0]));
        },
        other => panic!("{:?}", other),
    }
}

#[test]
fn drawn_buffer_carries_its_length() {
    let spec = Spec::new();
    let buf = RecordType {
        members: vec![
            RecordMemberType {
                name: "buf".into(),
                tref: TypeRef::Anonymous(WasiType::Pointer(Box::new(PointerType {
                    item:     TypeRef::Anonymous(WasiType::U8),
                    is_const: false,
                }))),
            },
            RecordMemberType { name: "buf_len".into(), tref: TypeRef::Anonymous(WasiType::U32) },
        ],
    };
    let data = [5u8, 42, 42, 42, 42, 42, 42];
    let mut u = Entropy::new(&data);
    let v = WasiType::Record(buf).arbitrary_value(&spec, &mut u).unwrap();
    let items: Vec<WasiValue> = (0..5).map(|_| WasiValue::U8(42)).collect();
    assert_eq!(
        v,
        WasiValue::Record(RecordValue {
            members: vec![WasiValue::Pointer(PointerValue { items }), WasiValue::U32(5)],
        })
    );
}

#[test]
fn drawn_buffer_fails_past_the_input() {
    let spec = Spec::new();
    let buf = RecordType {
        members: vec![
            RecordMemberType { name: "buf".into(), tref: TypeRef::Anonymous(WasiType::U8) },
            RecordMemberType { name: "buf_len".into(), tref: TypeRef::Anonymous(WasiType::U32) },
        ],
    };
    let data = [63u8];
    let mut u = Entropy::new(&data);
    assert_eq!(WasiType::Record(buf).arbitrary_value(&spec, &mut u), Err(DataError::NotEnoughData));
}

#[test]
fn variant_without_cases_cannot_be_drawn() {
    let spec = Spec::new();
    let t = WasiType::Variant(VariantType { tag_repr: IntRepr::U8, cases: vec![] });
    let mut u = Entropy::new(&[1, 2, 3]);
    assert_eq!(t.arbitrary_value(&spec, &mut u), Err(DataError::EmptyChoose));
}

#[test]
fn drawn_variant_follows_its_payload_type() {
    let spec = Spec::new();
    let t = WasiType::Variant(VariantType {
        tag_repr: IntRepr::U8,
        cases:    vec![
            VariantCaseType { name: "none".into(), payload: None },
            VariantCaseType { name: "some".into(), payload: Some(TypeRef::Named("u64".into())) },
        ],
    });
    let mut u = Entropy::new(&[1, 7, 0, 0, 0, 0, 0, 0, 0]);
    match t.arbitrary_value(&spec, &mut u).unwrap() {
        WasiValue::Variant(b) => {
            assert_eq!(b.case_idx, 1);
            assert!(matches!(b.payload, Some(WasiValue::U64(_))));
        },
        other => panic!("{:?}", other),
    }
    let mut u = Entropy::new(&[0]);
    assert_eq!(
        t.arbitrary_value(&spec, &mut u),
        Ok(WasiValue::Variant(Box::new(VariantValue { case_idx: 0, payload: None })))
    );
}

#[test]
fn drawn_record_and_flags_match_their_types() {
    let spec = Spec::new();
    let t = WasiType::Record(RecordType {
        members: vec![
            RecordMemberType { name: "a".into(), tref: TypeRef::Named("u8".into()) },
            RecordMemberType {
                name: "b".into(),
                tref: TypeRef::Anonymous(WasiType::Flags(FlagsType {
                    repr:   IntRepr::U8,
                    fields: vec!["x".into(), "y".into(), "z".into()],
                })),
            },
            RecordMemberType {
                name: "c".into(),
                tref: TypeRef::Anonymous(WasiType::List(Box::new(wazzi::wasi_spec::types::ListType {
                    item: TypeRef::Named("u32".into()),
                }))),
            },
        ],
    });
    let data: Vec<u8> = (0..64).collect();
    let mut u = Entropy::new(&data);
    match t.arbitrary_value(&spec, &mut u).unwrap() {
        WasiValue::Record(r) => {
            assert_eq!(r.members.len(), 3);
            assert!(matches!(r.members[0], WasiValue::U8(_)));
            match &r.members[1] {
                WasiValue::Flags(f) => assert_eq!(f.fields.len(), 3),
                other => panic!("{:?}", other),
            }
            match &r.members[2] {
                WasiValue::List(l) => {
                    assert!(l.items.len() < 16);
                    assert!(l.items.iter().all(|v| matches!(v, WasiValue::U32(_))));
                },
                other => panic!("{:?}", other),
            }
        },
        other => panic!("{:?}", other),
    }
}

#[test]
fn only_callable_functions_are_selected() {
    let spec = call_spec();
    let env = Environment::new();
    let ctx = RuntimeContext::new();
    for seed in 0u8..8 {
        let data = [seed; 8];
        let mut u = Entropy::new(&data);
        let mut strategy = StatelessStrategy::new(&mut u, &ctx);
        // No `fd` exists yet, so `fd_close` cannot be called.
        assert_eq!(strategy.select_function(&spec, &env).unwrap().name, "random_get");
    }
}

#[test]
fn no_function_to_select() {
    let mut spec = call_spec();
    let mut interface = Interface::new();
    interface.functions.push((
        "fd_close".into(),
        Function {
            name:        "fd_close".into(),
            params:      vec![FunctionParam { name: "fd".into(), tref: TypeRef::Named("fd".into()) }],
            results:     vec![],
            return_type: None,
            input_contract: None,
            output_contract: None,
        },
    ));
    spec.interfaces.push("wasi_snapshot_preview1".into(), interface);
    let env = Environment::new();
    let ctx = RuntimeContext::new();
    let mut u = Entropy::new(&[0, 1, 2]);
    let mut strategy = StatelessStrategy::new(&mut u, &ctx);
    assert_eq!(strategy.select_function(&spec, &env), Err(DataError::EmptyChoose));
}

#[test]
fn a_resource_makes_a_function_callable() {
    let spec = call_spec();
    let mut env = Environment::new();
    env.new_resource("fd".into(), Resource { state: WasiValue::U64(0) });
    let ctx = RuntimeContext::new();
    let mut names = Vec::new();
    for seed in 0u8..4 {
        let data = [seed; 8];
        let mut u = Entropy::new(&data);
        let mut strategy = StatelessStrategy::new(&mut u, &ctx);
        names.push(strategy.select_function(&spec, &env).unwrap().name.clone());
    }
    assert!(names.iter().any(|n| n == "fd_close"));
    assert!(names.iter().any(|n| n == "random_get"));
}

#[test]
fn resource_arguments_take_the_runtime_value() {
    let spec = call_spec();
    let mut env = Environment::new();
    env.new_resource("fd".into(), Resource { state: WasiValue::U64(0) });
    env.new_resource("fd".into(), Resource { state: WasiValue::U64(0) });
    let mut ctx = RuntimeContext::new();
    ctx.resources.insert(0, WasiValue::Handle(3));
    ctx.resources.insert(1, WasiValue::Handle(4));
    let data = [1u8];
    let mut u = Entropy::new(&data);
    let mut strategy = StatelessStrategy::new(&mut u, &ctx);
    let params = strategy.prepare_arguments(&spec, function_named(&spec, "fd_close"), &env).unwrap();
    assert_eq!(params, vec![(WasiValue::Handle(4), Some(ResourceIdx(1)))]);
}

#[test]
fn plain_arguments_are_drawn() {
    let spec = call_spec();
    let env = Environment::new();
    let ctx = RuntimeContext::new();
    let data = [1u8, 0, 0, 0];
    let mut u = Entropy::new(&data);
    let mut strategy = StatelessStrategy::new(&mut u, &ctx);
    let params = strategy.prepare_arguments(&spec, function_named(&spec, "random_get"), &env).unwrap();
    assert_eq!(params.len(), 1);
    assert!(matches!(params[0], (WasiValue::U32(_), None)));
}

#[test]
fn resource_argument_without_resources_fails() {
    let spec = call_spec();
    let env = Environment::new();
    let ctx = RuntimeContext::new();
    let mut u = Entropy::new(&[0]);
    let mut strategy = StatelessStrategy::new(&mut u, &ctx);
    assert_eq!(
        strategy.prepare_arguments(&spec, function_named(&spec, "fd_close"), &env),
        Err(DataError::EmptyChoose)
    );
}

#[test]
fn results_leave_the_environment_alone() {
    let spec = call_spec();
    let mut env = Environment::new();
    env.new_resource("fd".into(), Resource { state: WasiValue::U64(0) });
    let ctx = RuntimeContext::new();
    let mut u = Entropy::new(&[0]);
    let mut strategy = StatelessStrategy::new(&mut u, &ctx);
    let before = format!("{:?}", env);
    let f = function_named(&spec, "fd_close");
    assert_eq!(
        strategy.handle_results(&spec, f, &mut env, vec![(WasiValue::Handle(3), Some(ResourceIdx(0)))], vec![]),
        Ok(())
    );
    assert_eq!(format!("{:?}", env), before);
}
