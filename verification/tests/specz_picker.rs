use wazzi::entropy::Entropy;
use wazzi::entropy::DataError;
use wazzi::specz::context::Context;
use wazzi::specz::env::{Environment, Resource, Value};
use wazzi::specz::picker::{ResourcePicker, StatelessParamsGenerator};
use wazzi::wasi::effects::Program;
use wazzi::wasi::types::{
    Function, FunctionParam, IntRepr, Interface, ListType, RecordMemberType, RecordType, Spec,
    VariantType, WasiType, WazziType,
};
use wazzi::wasi::value::WasiValue;

fn ty(wasi: WasiType) -> WazziType {
    WazziType { name: None, wasi, attributes: Vec::new() }
}

fn fd_type() -> WazziType {
    WazziType {
        name:       Some("fd".into()),
        wasi:       WasiType::Handle,
        attributes: vec![("offset".into(), ty(WasiType::U64))],
    }
}

fn function(name: &str, params: Vec<(&str, WazziType)>) -> Function {
    Function {
        name:           name.into(),
        params:         params
            .into_iter()
            .map(|(n, t)| FunctionParam { name: n.into(), ty: t })
            .collect(),
        results:        vec![],
        return_type:    None,
        input_contract: None,
        effects:        Program { stmts: vec![] },
    }
}

/// A spec whose type `fd` is that of a resource, with the functions
/// `fd_close` and `random_get`, and a function `path_open` that takes an
/// `fd` and a path.
fn solver_spec() -> (Spec, Interface) {
    let mut spec = Spec::new();
    spec.types.push(fd_type());
    spec.types_map.push(("fd".into(), 0));
    let mut interface = Interface::new();
    interface.functions.push(("fd_close".into(), function("fd_close", vec![("fd", fd_type())])));
    interface.functions.push(("random_get".into(), function("random_get", vec![("buf_len", ty(WasiType::U32))])));
    (spec, interface)
}

#[test]
fn drawn_path_is_put_under_the_prefix() {
    let t = ty(WasiType::String);
    // Length 3, then `.`, `a` and `/`.
    let data = [2u8, 0, 2, 1];
    let mut u = Entropy::new(&data);
    assert_eq!(t.arbitrary_value(&mut u, None), Ok(WasiValue::String(b".a/".to_vec())));
    let mut u = Entropy::new(&data);
    assert_eq!(t.arbitrary_value(&mut u, Some(b"dir")), Ok(WasiValue::String(b"dir/.a/".to_vec())));
    let mut u = Entropy::new(&data);
    assert_eq!(t.arbitrary_value(&mut u, Some(b"")), Ok(WasiValue::String(b".a/".to_vec())));
}

#[test]
fn drawn_absolute_path_ignores_the_prefix() {
    let t = ty(WasiType::String);
    let data = [0u8, 1];
    let mut u = Entropy::new(&data);
    assert_eq!(t.arbitrary_value(&mut u, Some(b"dir")), Ok(WasiValue::String(b"/".to_vec())));
}

#[test]
fn drawn_lists_and_records_follow_their_types() {
    let t = ty(WasiType::Record(RecordType {
        members: vec![
            RecordMemberType { name: "n".into(), ty: ty(WasiType::U8) },
            RecordMemberType {
                name: "xs".into(),
                ty:   ty(WasiType::List(Box::new(ListType { item: ty(WasiType::U64) }))),
            },
        ],
    }));
    let data: Vec<u8> = (1..40).collect();
    let mut u = Entropy::new(&data);
    match t.arbitrary_value(&mut u, None).unwrap() {
        WasiValue::Record(r) => {
            assert_eq!(r.members.len(), 2);
            assert!(matches!(r.members[0], WasiValue::U8(_)));
            match &r.members[1] {
                WasiValue::List(l) => {
                    assert!(l.items.len() < 4);
                    assert!(l.items.iter().all(|v| matches!(v, WasiValue::U64(_))));
                },
                other => panic!("{:?}", other),
            }
        },
        other => panic!("{:?}", other),
    }
}

#[test]
fn drawing_an_empty_variant_fails() {
    let t = ty(WasiType::Variant(VariantType { tag_repr: IntRepr::U8, cases: vec![] }));
    let mut u = Entropy::new(&[1, 2]);
    assert_eq!(t.arbitrary_value(&mut u, None), Err(DataError::EmptyChoose));
}

#[test]
fn picker_skips_functions_without_resources() {
    let (spec, interface) = solver_spec();
    let env = Environment::new();
    let ctx = Context::new("/tmp".into());
    for seed in 0u8..4 {
        let data = [seed, seed];
        let mut u = Entropy::new(&data);
        let f = ResourcePicker.pick_function(&mut u, &interface, &env, &ctx, &spec).unwrap();
        assert_eq!(f.name, "random_get");
    }
}

#[test]
fn picker_takes_functions_with_resources() {
    let (spec, interface) = solver_spec();
    let mut env = Environment::new();
    env.new_resource("fd".into(), Resource { attributes: vec![] });
    let ctx = Context::new("/tmp".into());
    let mut u = Entropy::new(&[0]);
    assert_eq!(ResourcePicker.pick_function(&mut u, &interface, &env, &ctx, &spec).unwrap().name, "fd_close");
    let mut u = Entropy::new(&[1]);
    assert_eq!(ResourcePicker.pick_function(&mut u, &interface, &env, &ctx, &spec).unwrap().name, "random_get");
}

#[test]
fn picker_without_candidates_fails() {
    let (spec, _) = solver_spec();
    let mut interface = Interface::new();
    interface.functions.push(("fd_close".into(), function("fd_close", vec![("fd", fd_type())])));
    let env = Environment::new();
    let ctx = Context::new("/tmp".into());
    let mut u = Entropy::new(&[0]);
    assert_eq!(
        ResourcePicker.pick_function(&mut u, &interface, &env, &ctx, &spec),
        Err(DataError::EmptyChoose)
    );
}

#[test]
fn params_take_resources_and_their_prefix() {
    let (spec, _) = solver_spec();
    let f = function("path_open", vec![("fd", fd_type()), ("path", ty(WasiType::String))]);
    let mut env = Environment::new();
    env.new_resource("fd".into(), Resource { attributes: vec![] });
    let mut ctx = Context::new("/tmp".into());
    ctx.resources.insert(0, (WasiValue::Handle(3), Some(b"base".to_vec())));
    let data = [2u8, 0, 2, 1];
    let mut u = Entropy::new(&data);
    let params = StatelessParamsGenerator.generate_params(&mut u, &env, &ctx, &spec, &f).unwrap();
    assert_eq!(
        params,
        vec![
            Value { wasi: WasiValue::Handle(3), resource: Some(0) },
            Value { wasi: WasiValue::String(b"base/.a/".to_vec()), resource: None },
        ]
    );
}

#[test]
fn params_without_resource_fail() {
    let (spec, _) = solver_spec();
    let f = function("fd_close", vec![("fd", fd_type())]);
    let env = Environment::new();
    let ctx = Context::new("/tmp".into());
    let mut u = Entropy::new(&[0]);
    assert_eq!(
        StatelessParamsGenerator.generate_params(&mut u, &env, &ctx, &spec, &f),
        Err(DataError::EmptyChoose)
    );
}
