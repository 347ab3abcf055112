use num_bigint::BigInt;
use wazzi::wasi::term::Term;
use wazzi::witx::{to_term, Rule, SpecError, WitxNode};

fn node(rule: Rule, text: &str, children: Vec<WitxNode>) -> WitxNode {
    WitxNode { rule, text: text.to_string(), children }
}

fn id(text: &str) -> WitxNode {
    node(Rule::Id, text, vec![])
}

fn param(name: &str) -> WitxNode {
    node(Rule::Param, "", vec![id(name)])
}

fn num(text: &str) -> WitxNode {
    node(Rule::NumLit, text, vec![])
}

#[test]
fn params_lose_their_dollar() {
    match to_term(&param("$fd")) {
        Ok(Term::Param(p)) => assert_eq!(p.name, "fd"),
        other => panic!("{:?}", other),
    }
}

#[test]
fn and_skips_comments() {
    let n = node(
        Rule::And,
        "",
        vec![param("$a"), node(Rule::Comment, ";; note", vec![]), node(Rule::Not, "", vec![param("$b")])],
    );
    match to_term(&n) {
        Ok(Term::And(a)) => {
            assert_eq!(a.clauses.len(), 2);
            assert!(matches!(&a.clauses[0], Term::Param(p) if p.name == "a"));
            match &a.clauses[1] {
                Term::Not(x) => assert!(matches!(&x.term, Term::Param(p) if p.name == "b")),
                other => panic!("{:?}", other),
            }
        },
        other => panic!("{:?}", other),
    }
}

#[test]
fn integer_literals_are_read() {
    let n = node(Rule::IntLe, "", vec![num("-12"), node(Rule::IntAdd, "", vec![param("$x"), num("3")])]);
    match to_term(&n) {
        Ok(Term::IntLe(le)) => {
            assert!(matches!(&le.lhs, Term::IntConst(b) if *b == BigInt::from(-12)));
            match &le.rhs {
                Term::IntAdd(add) => assert!(matches!(&add.rhs, Term::IntConst(b) if *b == BigInt::from(3))),
                other => panic!("{:?}", other),
            }
        },
        other => panic!("{:?}", other),
    }
}

#[test]
fn a_bad_literal_fails_the_term() {
    let n = node(Rule::Or, "", vec![param("$a"), num("12x")]);
    assert!(matches!(to_term(&n), Err(SpecError::BadInteger)));
}

#[test]
fn variant_constants_with_and_without_payload() {
    let bare = node(Rule::VariantConst, "", vec![id("$filetype"), id("$directory")]);
    match to_term(&bare) {
        Ok(Term::VariantConst(v)) => {
            assert_eq!(v.ty, "filetype");
            assert_eq!(v.case, "directory");
            assert!(v.payload.is_none());
        },
        other => panic!("{:?}", other),
    }
    let full = node(Rule::VariantConst, "", vec![id("$option"), id("$some"), num("7")]);
    match to_term(&full) {
        Ok(Term::VariantConst(v)) => {
            assert_eq!(v.case, "some");
            assert!(matches!(&v.payload, Some(Term::IntConst(b)) if *b == BigInt::from(7)));
        },
        other => panic!("{:?}", other),
    }
}

#[test]
fn flags_get_and_attr_get_read_their_names() {
    let n = node(
        Rule::ValueEq,
        "",
        vec![
            node(Rule::FlagsGet, "", vec![param("$flags"), id("$oflags"), id("$creat")]),
            node(Rule::AttrGet, "", vec![param("$fd"), id("$offset")]),
        ],
    );
    match to_term(&n) {
        Ok(Term::ValueEq(eq)) => {
            assert!(matches!(&eq.lhs, Term::FlagsGet(f) if f.flags_type == "oflags" && f.field == "creat"));
            assert!(matches!(&eq.rhs, Term::AttrGet(g) if g.attr == "offset"));
        },
        other => panic!("{:?}", other),
    }
}

#[test]
fn integer_literals_follow_bigint_syntax() {
    assert!(matches!(to_term(&num("1_000")), Ok(Term::IntConst(b)) if b == BigInt::from(1000)));
    assert!(matches!(to_term(&num("+7")), Ok(Term::IntConst(b)) if b == BigInt::from(7)));
    assert!(matches!(to_term(&num("-_1")), Err(SpecError::BadInteger)));
    assert!(matches!(to_term(&num("-+1")), Err(SpecError::BadInteger)));
    assert!(matches!(to_term(&num("")), Err(SpecError::BadInteger)));
}
