use num_bigint::BigInt;
use wazzi::wasi::term::Term;
use wazzi::wasi::types::{IntRepr, Spec, VariantCaseType, VariantType, WasiType, WazziType};
use wazzi::wasi_spec::slang;
use wazzi::wasi::effects::{Expr, Stmt};
use wazzi::wasi::value::WasiValue;
use wazzi::witx::{read_function, to_slang_term, to_stmt, Rule, SpecError, WitxNode};
use wazzi::witx_doc::{preview1, read_module};

fn node(rule: Rule, text: &str, children: Vec<WitxNode>) -> WitxNode {
    WitxNode { rule, text: text.to_string(), children }
}

fn leaf(rule: Rule) -> WitxNode {
    node(rule, "", vec![])
}

fn id(text: &str) -> WitxNode {
    node(Rule::Id, text, vec![])
}

fn ty(kind: WitxNode) -> WitxNode {
    node(Rule::Type, "", vec![kind])
}

fn tref(inner: WitxNode) -> WitxNode {
    node(Rule::TypeRef, "", vec![inner])
}

fn plain(wasi: WasiType) -> WazziType {
    WazziType { name: None, wasi, attributes: Vec::new() }
}

/// A spec with `size` (u32) and `errno` (an enum of two cases).
fn spec() -> Spec {
    let errno = WasiType::Variant(VariantType {
        tag_repr: IntRepr::U16,
        cases:    vec![
            VariantCaseType { name: "success".to_string(), payload: None },
            VariantCaseType { name: "badf".to_string(), payload: None },
        ],
    });
    Spec {
        types:          vec![plain(WasiType::U32), plain(errno)],
        interfaces:     Vec::new(),
        types_map:      vec![("size".to_string(), 0), ("errno".to_string(), 1)],
        interfaces_map: Vec::new(),
    }
}

fn function(name: &str, items: Vec<WitxNode>) -> WitxNode {
    let mut cs = vec![node(Rule::FunctionName, name, vec![])];
    cs.extend(items);
    node(Rule::Function, "", cs)
}

fn param(name: &str, ty_name: &str) -> WitxNode {
    node(Rule::Param, "", vec![id(name), tref(id(ty_name))])
}

fn expected_result() -> WitxNode {
    let expected = ty(node(Rule::Expected, "", vec![tref(id("$size")), tref(id("$errno"))]));
    node(Rule::Result, "", vec![id("$error"), tref(expected)])
}

fn input(term: WitxNode) -> WitxNode {
    node(Rule::AnnotationExpr, "", vec![node(Rule::Annotation, "@input", vec![]), term])
}

#[test]
fn slang_lambda_binds_typed_names() {
    let bound_fd = node(Rule::Other, "", vec![id("$x"), id("$fd")]);
    let bound_n = node(Rule::Other, "", vec![id("$n"), leaf(Rule::Int)]);
    let body = node(Rule::IntGt, "", vec![id("$n"), node(Rule::IntConst, "", vec![node(Rule::NumLit, "7", vec![])])]);
    let n = node(Rule::Lambda, "", vec![bound_fd, bound_n, body]);
    match to_slang_term(&n) {
        Ok(slang::Term::Lambda(l)) => {
            assert_eq!(l.bounds.len(), 2);
            assert_eq!(l.bounds[0].name, "x");
            assert_eq!(l.bounds[0].tref, slang::TypeRef::Wasi("fd".to_string()));
            assert_eq!(l.bounds[1].name, "n");
            assert_eq!(l.bounds[1].tref, slang::TypeRef::Wazzi(slang::WazziType::Int));
            match &l.body {
                slang::Term::IntGt(gt) => {
                    assert_eq!(gt.lhs, slang::Term::Binding("n".to_string()));
                    match &gt.rhs {
                        slang::Term::IntWrap(w) => assert_eq!(w.op, slang::Term::IntConst(BigInt::from(7))),
                        other => panic!("{:?}", other),
                    }
                },
                other => panic!("{:?}", other),
            }
        },
        other => panic!("{:?}", other),
    }
}

#[test]
fn slang_strings_join_their_parts_and_foldl_reads_three_terms() {
    let s = node(Rule::String, "", vec![node(Rule::Other, "ab", vec![]), node(Rule::Other, "cd", vec![])]);
    match to_slang_term(&s) {
        Ok(slang::Term::String(t)) => assert_eq!(t, "abcd"),
        other => panic!("{:?}", other),
    }
    let f = node(
        Rule::Foldl,
        "",
        vec![node(Rule::Param, "", vec![id("$iovs")]), leaf(Rule::True), node(Rule::ResourceId, "", vec![id("$fd")])],
    );
    match to_slang_term(&f) {
        Ok(slang::Term::Foldl(x)) => {
            assert!(matches!(&x.target, slang::Term::Param(p) if p.name == "iovs"));
            assert_eq!(x.acc, slang::Term::True);
            assert_eq!(x.func, slang::Term::ResourceId("fd".to_string()));
        },
        other => panic!("{:?}", other),
    }
}

#[test]
fn slang_bad_literal_fails() {
    let n = node(Rule::Not, "", vec![node(Rule::IntConst, "", vec![node(Rule::NumLit, "1x", vec![])])]);
    assert!(matches!(to_slang_term(&n), Err(SpecError::BadInteger)));
}

#[test]
fn functions_read_params_expected_results_and_input() {
    let s = spec();
    let f = function(
        "fd_write",
        vec![
            param("$fd", "$size"),
            leaf(Rule::Comment),
            expected_result(),
            input(node(Rule::Param, "", vec![id("$fd")])),
        ],
    );
    let func = read_function(&s, &f).unwrap();
    assert_eq!(func.name, "fd_write");
    assert_eq!(func.params.len(), 1);
    assert_eq!(func.params[0].name, "fd");
    assert_eq!(func.params[0].ty.wasi, WasiType::U32);
    assert_eq!(func.results.len(), 1);
    assert_eq!(func.results[0].name, "expected");
    assert_eq!(func.results[0].ty.wasi, WasiType::U32);
    assert_eq!(func.return_type, Some(()));
    assert!(matches!(&func.input_contract, Some(Term::Param(p)) if p.name == "fd"));
    assert!(func.effects.stmts.is_empty());
}

#[test]
fn functions_with_unknown_types_fail() {
    let s = spec();
    let f = function("fd_read", vec![param("$fd", "$nope")]);
    assert!(matches!(read_function(&s, &f), Err(SpecError::UnknownType)));
}

#[test]
fn modules_keep_the_last_function_of_a_name() {
    let s = spec();
    let items = vec![
        function("fd_close", vec![param("$fd", "$size")]),
        leaf(Rule::Comment),
        function("fd_sync", vec![]),
        function("fd_close", vec![param("$a", "$size"), param("$b", "$size")]),
    ];
    let m = read_module(&s, &items).unwrap();
    assert_eq!(m.functions.len(), 2);
    let close = m.functions.iter().find(|(n, _)| n == "fd_close").unwrap();
    assert_eq!(close.1.params.len(), 2);
    assert_eq!(close.1.params[0].name, "a");
    assert!(m.functions.iter().any(|(n, f)| n == "fd_sync" && f.params.is_empty()));
}

#[test]
fn modules_fail_with_their_first_bad_function() {
    let s = spec();
    let items = vec![function("fd_close", vec![param("$fd", "$nope")]), function("fd_sync", vec![])];
    assert!(matches!(read_module(&s, &items), Err(SpecError::UnknownType)));
}

fn typename(name: &str, kind: WitxNode) -> WitxNode {
    node(Rule::Typename, "", vec![id(name), tref(ty(kind))])
}

#[test]
fn documents_add_types_and_modules() {
    let mut s = spec();
    let doc = node(
        Rule::Document,
        "",
        vec![
            leaf(Rule::Comment),
            typename("$timestamp", leaf(Rule::U64)),
            node(Rule::Module, "", vec![id("$wasi"), function("clock_now", vec![param("$t", "$timestamp")])]),
            leaf(Rule::Eoi),
        ],
    );
    preview1(&mut s, &doc).unwrap();
    assert_eq!(s.types.len(), 3);
    assert_eq!(s.types[2].name, Some("timestamp".to_string()));
    assert_eq!(s.types[2].wasi, WasiType::U64);
    assert_eq!(s.types_map[2], ("timestamp".to_string(), 2));
    assert_eq!(s.interfaces.len(), 1);
    assert_eq!(s.interfaces_map, vec![("wasi".to_string(), 0)]);
    assert_eq!(s.interfaces[0].functions[0].0, "clock_now");
    assert_eq!(s.interfaces[0].functions[0].1.params[0].ty.wasi, WasiType::U64);
}

#[test]
fn a_type_named_twice_is_refused_and_the_first_kept() {
    let mut s = spec();
    let doc = node(
        Rule::Document,
        "",
        vec![typename("$fd", leaf(Rule::Handle)), typename("$fd", leaf(Rule::U8)), typename("$later", leaf(Rule::U8))],
    );
    assert!(matches!(preview1(&mut s, &doc), Err(SpecError::AlreadyDefined)));
    assert_eq!(s.types.len(), 3);
    assert_eq!(s.types[2].wasi, WasiType::Handle);
}

#[test]
fn document_names_must_be_identifiers() {
    let mut s = spec();
    let doc = node(Rule::Document, "", vec![node(Rule::Typename, "", vec![leaf(Rule::U8), tref(ty(leaf(Rule::U8)))])]);
    assert!(matches!(preview1(&mut s, &doc), Err(SpecError::ExpectedId)));
    let doc = node(Rule::Document, "", vec![node(Rule::Typename, "", vec![id("$x"), leaf(Rule::U8)])]);
    assert!(matches!(preview1(&mut s, &doc), Err(SpecError::ExpectedTypeRef)));
    let doc = node(Rule::Document, "", vec![node(Rule::Module, "", vec![leaf(Rule::Comment)])]);
    assert!(matches!(preview1(&mut s, &doc), Err(SpecError::ExpectedId)));
    assert_eq!(s.types.len(), 2);
}

#[test]
fn a_module_named_again_takes_the_name() {
    let mut s = spec();
    let doc = node(
        Rule::Document,
        "",
        vec![
            node(Rule::Module, "", vec![id("$m"), function("a", vec![])]),
            node(Rule::Module, "", vec![id("$m"), function("b", vec![])]),
        ],
    );
    preview1(&mut s, &doc).unwrap();
    assert_eq!(s.interfaces.len(), 2);
    assert_eq!(s.interfaces_map, vec![("m".to_string(), 1)]);
    assert_eq!(s.interfaces[1].functions[0].0, "b");
}

fn set_offset(text: &str) -> WitxNode {
    node(Rule::AttrSet, "", vec![id("$fd"), id("$offset"), node(Rule::S64Const, "", vec![node(Rule::Other, text, vec![])])])
}

#[test]
fn s64_constants_take_a_sign_and_must_fit() {
    let s = spec();
    match to_stmt(&s, &set_offset("+17")).unwrap() {
        Stmt::AttrSet(a) => assert_eq!(a.value, Expr::WasiValue(WasiValue::S64(17))),
    }
    match to_stmt(&s, &set_offset("-9223372036854775808")).unwrap() {
        Stmt::AttrSet(a) => assert_eq!(a.value, Expr::WasiValue(WasiValue::S64(i64::MIN))),
    }
    assert_eq!(to_stmt(&s, &set_offset("9223372036854775808")).unwrap_err(), SpecError::BadInteger);
    assert_eq!(to_stmt(&s, &set_offset("-")).unwrap_err(), SpecError::BadInteger);
    assert_eq!(to_stmt(&s, &set_offset("")).unwrap_err(), SpecError::BadInteger);
    assert_eq!(to_stmt(&s, &set_offset(" 1")).unwrap_err(), SpecError::BadInteger);
}
