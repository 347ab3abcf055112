use wazzi::entropy::Entropy;
use wazzi::preview1::RestrictedString;
use wazzi::specz::context::Context;
use wazzi::specz::env::{Environment, Resource};
use wazzi::specz::fs::{DirTree, Entities, FsError, WasiFs};
use wazzi::specz::path::PathParam;
use wazzi::wasi::effects::{AttrSet, Expr, Program, Stmt};
use wazzi::wasi::value::WasiValue;

#[test]
fn entities_are_indexed() {
    let mut e: Entities<&str> = Entities::new();
    assert_eq!(e.push("a"), 0);
    assert_eq!(e.push("b"), 1);
    assert_eq!(e.get(1), Some(&"b"));
    assert_eq!(e.get(2), None);
    assert_eq!(e.iter(), vec![(0, &"a"), (1, &"b")]);
}

#[test]
fn register_fd_on_missing_path_fails() {
    let mut fs = WasiFs::new();
    assert_eq!(fs.register_fd(0, &[]), Ok(()));
    assert_eq!(fs.register_fd(0, &["a".to_string()]), Err(FsError::NoChild));
}

#[test]
fn context_starts_empty() {
    let ctx = Context::new("/tmp/base".into());
    assert!(ctx.resources.is_empty());
    assert_eq!(ctx.base_dir_host_path, "/tmp/base");
}

#[test]
fn path_param_new() {
    let a = PathParam::new("path".into(), 3);
    assert_eq!(a, PathParam::new("path".into(), 3));
    assert_ne!(a, PathParam::new("path".into(), 4));
}

#[test]
fn effects_set_attributes() {
    let mut env = Environment::new();
    let id = env.new_resource(
        "fd".into(),
        Resource { attributes: vec![("offset".into(), WasiValue::U64(0)), ("flags".into(), WasiValue::U32(0))] },
    );
    assert_eq!(id, 0);
    let program = Program {
        stmts: vec![
            Stmt::AttrSet(AttrSet { resource: "fd".into(), attr: "offset".into(), value: Expr::WasiValue(WasiValue::U64(3)) }),
            Stmt::AttrSet(AttrSet { resource: "fd".into(), attr: "offset".into(), value: Expr::WasiValue(WasiValue::U64(9)) }),
        ],
    };
    env.execute_function_effects(&program, &vec![("fd".into(), 0)]);
    let mut expected = Environment::new();
    expected.new_resource(
        "fd".into(),
        Resource { attributes: vec![("offset".into(), WasiValue::U64(9)), ("flags".into(), WasiValue::U32(0))] },
    );
    assert_eq!(env, expected);
}

#[test]
fn restricted_strings_are_short_paths() {
    let data = [5u8, 0, 1, 2, 0, 1, 2, 2, 2];
    let mut u = Entropy::new(&data);
    let s = RestrictedString::arbitrary(&mut u).unwrap();
    assert!(!s.is_empty());
    assert!(s.as_bytes().len() <= 32);
    assert!(s.as_bytes().iter().all(|b| b"./a".contains(b)));
    let mut empty = Entropy::new(&[]);
    let t = RestrictedString::arbitrary(&mut empty).unwrap();
    assert_eq!(t.as_bytes(), b".");
}

fn dir(entries: Vec<(&str, DirTree)>) -> DirTree {
    DirTree::Dir(entries.into_iter().map(|(n, t)| (n.to_string(), t)).collect())
}

#[test]
fn pushed_tree_paths_can_be_opened() {
    let tree = dir(vec![
        ("file", DirTree::File),
        ("dir", dir(vec![("nested", DirTree::File), ("inner", dir(vec![]))])),
    ]);
    let mut fs = WasiFs::new();
    let root = fs.push_dir(&tree);
    assert_eq!(root, 0);
    assert_eq!(fs.register_fd(root, &[]), Ok(()));
    assert_eq!(fs.register_fd(root, &["file".to_string()]), Ok(()));
    assert_eq!(fs.register_fd(root, &["dir".to_string(), "nested".to_string()]), Ok(()));
    assert_eq!(fs.register_fd(root, &["dir".to_string(), "inner".to_string()]), Ok(()));
    assert_eq!(fs.register_fd(root, &["nested".to_string()]), Err(FsError::NoChild));
    assert_eq!(fs.register_fd(root, &["file".to_string(), "x".to_string()]), Err(FsError::NoChild));
}

#[test]
fn entries_are_numbered_by_name() {
    // The root is file 0; its entries, by name: "a" is 1, "b" is 2, "c" is 3.
    // Directories are then filled last-named first: "c" gets 4, "a" gets 5.
    let tree = dir(vec![
        ("c", dir(vec![("z", DirTree::File)])),
        ("a", dir(vec![("y", DirTree::File)])),
        ("b", DirTree::File),
    ]);
    let mut fs = WasiFs::new();
    let root = fs.push_dir(&tree);
    let second = fs.push_dir(&DirTree::File);
    assert_eq!(root, 0);
    assert_eq!(second, 6);
    assert_eq!(fs.register_fd(root, &["c".to_string(), "z".to_string()]), Ok(()));
    assert_eq!(fs.register_fd(root, &["a".to_string(), "y".to_string()]), Ok(()));
}

#[test]
fn push_dir_numbers_every_entry() {
    let mut fs = WasiFs::new();
    let first = dir(vec![
        ("a", dir(vec![("x", DirTree::File), ("y", dir(vec![]))])),
        ("b", DirTree::File),
    ]);
    assert_eq!(fs.push_dir(&first), 0);
    assert_eq!(fs.push_dir(&DirTree::File), 5);
    assert_eq!(fs.push_dir(&dir(vec![])), 6);
    assert_eq!(fs.register_fd(5, &[]), Ok(()));
    assert_eq!(fs.register_fd(5, &["a".to_string()]), Err(FsError::NoChild));
    assert_eq!(fs.register_fd(0, &["a".to_string(), "y".to_string(), "z".to_string()]), Err(FsError::NoChild));
}

#[test]
fn a_second_tree_starts_after_the_first_and_its_entries() {
    let mut fs = WasiFs::new();
    let first = dir(vec![("a", DirTree::File), ("b", dir(vec![("c", DirTree::File)]))]);
    let second = dir(vec![("d", DirTree::File)]);
    assert_eq!(fs.push_dir(&first), 0);
    assert_eq!(fs.push_dir(&second), 1 + 3);
}
