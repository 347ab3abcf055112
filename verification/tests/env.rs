use wazzi::env::{apply_env_initializers, Environment, EnvironmentInitializer, RuntimeContext};
use wazzi::resource::{Resource, ResourceIdx, Resources};
use wazzi::wasi_spec::types::{
    FlagsType, Function, FunctionResult, IntRepr, RecordMemberType, RecordType, Spec, TypeDef,
    TypeRef, VariantCaseType, VariantType, WasiType,
};
use wazzi::wasi_spec::value::{FlagsValue, RecordValue, VariantValue, WasiValue};

/// A spec with an `fd` handle type whose state records offset, flags, file
/// type and rights.
fn fd_spec() -> Spec {
    let mut spec = Spec::new();
    spec.types.push(
        "fdflags".into(),
        TypeDef {
            name:  "fdflags".into(),
            wasi:  WasiType::Flags(FlagsType { repr: IntRepr::U16, fields: vec!["append".into(), "sync".into()] }),
            state: None,
        },
    );
    spec.types.push(
        "filetype".into(),
        TypeDef {
            name:  "filetype".into(),
            wasi:  WasiType::Variant(VariantType {
                tag_repr: IntRepr::U8,
                cases:    vec![
                    VariantCaseType { name: "unknown".into(), payload: None },
                    VariantCaseType { name: "directory".into(), payload: None },
                    VariantCaseType { name: "regular_file".into(), payload: None },
                ],
            }),
            state: None,
        },
    );
    spec.types.push(
        "fd".into(),
        TypeDef {
            name:  "fd".into(),
            wasi:  WasiType::Handle,
            state: Some(WasiType::Record(RecordType {
                members: vec![
                    RecordMemberType { name: "offset".into(), tref: TypeRef::Named("u64".into()) },
                    RecordMemberType { name: "flags".into(), tref: TypeRef::Named("fdflags".into()) },
                    RecordMemberType { name: "type".into(), tref: TypeRef::Named("filetype".into()) },
                    RecordMemberType { name: "rights".into(), tref: TypeRef::Named("u64".into()) },
                ],
            })),
        },
    );
    spec
}

fn preopen_state() -> WasiValue {
    WasiValue::Record(RecordValue {
        members: vec![
            WasiValue::U64(0),
            WasiValue::Flags(FlagsValue { fields: vec![false, false] }),
            WasiValue::Variant(Box::new(VariantValue { case_idx: 1, payload: None })),
            WasiValue::U64(0),
        ],
    })
}

#[test]
fn resources_push_then_get() {
    let mut r = Resources::new();
    assert_eq!(r.push(Resource { state: WasiValue::U8(1) }), ResourceIdx(0));
    assert_eq!(r.push(Resource { state: WasiValue::U8(2) }), ResourceIdx(1));
    assert_eq!(r.get(ResourceIdx(0)), Some(&Resource { state: WasiValue::U8(1) }));
    assert_eq!(r.get(ResourceIdx(2)), None);
    r.get_mut(ResourceIdx(1)).unwrap().state = WasiValue::U8(9);
    assert_eq!(r.get(ResourceIdx(1)), Some(&Resource { state: WasiValue::U8(9) }));
    assert!(r.get_mut(ResourceIdx(5)).is_none());
    assert_eq!(r.len(), 2);
}

#[test]
fn new_resource_indices_are_sequential() {
    let mut env = Environment::new();
    assert_eq!(env.new_resource("fd".into(), Resource { state: WasiValue::U8(0) }), ResourceIdx(0));
    assert_eq!(env.new_resource("dir".into(), Resource { state: WasiValue::U8(1) }), ResourceIdx(1));
    assert_eq!(env.new_resource("fd".into(), Resource { state: WasiValue::U8(2) }), ResourceIdx(2));
}

#[test]
fn apply_initializers_shares_preopens() {
    let spec = fd_spec();
    let inits = vec![
        EnvironmentInitializer {
            preopens: vec![
                ("base".into(), "/tmp/a".into(), WasiValue::Handle(3)),
                ("other".into(), "/tmp/b".into(), WasiValue::Handle(4)),
            ],
        },
        EnvironmentInitializer {
            preopens: vec![
                ("other".into(), "/tmp/d".into(), WasiValue::Handle(7)),
                ("base".into(), "/tmp/c".into(), WasiValue::Handle(5)),
            ],
        },
    ];
    let (env, ctxs) = apply_env_initializers(&spec, &inits);
    assert_eq!(ctxs.len(), 2);
    let mut expected = Environment::new();
    expected.new_resource("fd".into(), Resource { state: preopen_state() });
    expected.new_resource("fd".into(), Resource { state: preopen_state() });
    assert_eq!(env, expected);
    assert_eq!(ctxs[0].preopens.get(&0), Some(&"/tmp/a".to_string()));
    assert_eq!(ctxs[0].preopens.get(&1), Some(&"/tmp/b".to_string()));
    assert_eq!(ctxs[1].preopens.get(&0), Some(&"/tmp/c".to_string()));
    assert_eq!(ctxs[1].preopens.get(&1), Some(&"/tmp/d".to_string()));
    assert_eq!(ctxs[1].resources.get(&0), Some(&WasiValue::Handle(5)));
    assert_eq!(ctxs[1].resources.get(&1), Some(&WasiValue::Handle(7)));
}

#[test]
fn apply_no_initializers() {
    let spec = fd_spec();
    let (env, ctxs) = apply_env_initializers(&spec, &[]);
    assert_eq!(env, Environment::new());
    assert!(ctxs.is_empty());
}

#[test]
fn results_create_resources() {
    let spec = fd_spec();
    let function = Function {
        name:        "path_open".into(),
        params:      vec![],
        results:     vec![
            FunctionResult { name: "opened_fd".into(), tref: TypeRef::Named("fd".into()) },
            FunctionResult { name: "size".into(), tref: TypeRef::Named("u64".into()) },
        ],
        return_type: None,
        input_contract: None,
        output_contract: None,
    };
    let mut env = Environment::new();
    env.new_resource("fd".into(), Resource { state: WasiValue::U8(0) });
    let ids = env.execute_function_effects(
        &spec,
        &function,
        &[],
        &vec![("opened_fd".into(), WasiValue::Handle(9)), ("size".into(), WasiValue::U64(3))],
    );
    assert_eq!(ids, vec![Some(ResourceIdx(1)), None]);
    assert_eq!(env.resources_of_type(&"fd".to_string()), Some(&vec![ResourceIdx(0), ResourceIdx(1)]));
    assert_eq!(env.resources_of_type(&"u64".to_string()), None);
    let mut expected = Environment::new();
    expected.new_resource("fd".into(), Resource { state: WasiValue::U8(0) });
    expected.new_resource(
        "fd".into(),
        Resource {
            state: WasiValue::Record(RecordValue {
                members: vec![
                    WasiValue::U64(0),
                    WasiValue::Flags(FlagsValue { fields: vec![false, false] }),
                    WasiValue::Variant(Box::new(VariantValue { case_idx: 0, payload: None })),
                    WasiValue::U64(0),
                ],
            }),
        },
    );
    assert_eq!(env, expected);
}

#[test]
fn context_learns_runtime_values() {
    let spec = fd_spec();
    let fd = spec.types.get_by_key("fd").unwrap();
    let mut env = Environment::new();
    let mut ctx = RuntimeContext::new();
    env.add_resources_to_ctx_recursively(&spec, &mut ctx, fd, &WasiValue::Handle(11));
    assert_eq!(ctx.resources.get(&0), Some(&WasiValue::Handle(11)));
    assert_eq!(env.resources_of_type(&"fd".to_string()), Some(&vec![ResourceIdx(0)]));
    assert!(ctx.preopens.is_empty());
    let u64_def = spec.types.get_by_key("u64").unwrap();
    env.add_resources_to_ctx_recursively(&spec, &mut ctx, u64_def, &WasiValue::U64(1));
    assert_eq!(ctx.resources.len(), 1);
}
