use wazzi::store::{FuzzMetadata, RunStore, RuntimeStore, Store, StoreError};
use wazzi::text::{decimal_string, join_path};

#[test]
fn decimal_numerals() {
    assert_eq!(decimal_string(0, 0), "0");
    assert_eq!(decimal_string(7, 4), "0007");
    assert_eq!(decimal_string(1234, 4), "1234");
    assert_eq!(decimal_string(98765, 4), "98765");
    assert_eq!(decimal_string(usize::MAX, 0), usize::MAX.to_string());
}

#[test]
fn joined_paths() {
    assert_eq!(join_path("/a", "b"), "/a/b");
    assert_eq!(join_path("/a/", "b"), "/a/b");
    assert_eq!(join_path("", "b"), "/b");
}

#[test]
fn runs_are_numbered() {
    let mut store = Store::new("/store");
    assert_eq!(store.root_path(), "/store");
    let (id0, run0): (String, RunStore<u32>) = store.new_run();
    let (id1, _run1): (String, RunStore<u32>) = store.new_run();
    assert_eq!(id0, "0");
    assert_eq!(id1, "1");
    assert!(run0.runtime_stores().is_empty());
    assert_eq!(store.metadata(), FuzzMetadata { ncalls: 0 });
}

#[test]
fn runtime_store_paths_and_calls() {
    let mut rt: RuntimeStore<u32> = RuntimeStore::new("/store/runs/0/runtimes/wasmtime", true);
    assert_eq!(rt.root_path(), "/store/runs/0/runtimes/wasmtime");
    assert_eq!(rt.base_path(), "/store/runs/0/runtimes/wasmtime/base");
    assert_eq!(rt.last_call(), None);
    assert_eq!(rt.trace_file(), Some("/store/runs/0/runtimes/wasmtime/trace/0000.json".to_string()));
    rt.record_call(5);
    rt.record_call(6);
    assert_eq!(rt.last_call(), Some(&6));
    assert_eq!(rt.trace_file(), Some("/store/runs/0/runtimes/wasmtime/trace/0002.json".to_string()));
    let quiet: RuntimeStore<u32> = RuntimeStore::new("/r", false);
    assert_eq!(quiet.trace_file(), None);
}

#[test]
fn finishing_adds_the_calls() {
    let mut store = Store::new("/store");
    let (_, mut run): (String, RunStore<u32>) = store.new_run();
    assert_eq!(run.new_runtime("wasmtime".into(), false), Ok(0));
    assert_eq!(run.new_runtime("wasmer".into(), false), Ok(1));
    assert_eq!(run.runtime_stores()[1].0, "wasmer");
    assert_eq!(run.runtime_stores()[1].1.root_path(), "/store/runs/0/runtimes/wasmer");
    run.runtime_mut(0).record_call(1);
    assert!(!run.calls_agree());
    run.runtime_mut(1).record_call(2);
    assert!(run.calls_agree());
    run.finish(&mut store);
    assert_eq!(store.metadata(), FuzzMetadata { ncalls: 1 });
    run.finish(&mut store);
    assert_eq!(store.metadata().ncalls, 2);
}

#[test]
fn same_runtime_name_is_refused() {
    let mut store = Store::new("/s");
    let (_, mut run): (String, RunStore<u32>) = store.new_run();
    assert_eq!(run.new_runtime("a".into(), false), Ok(0));
    run.runtime_mut(0).record_call(1);
    assert_eq!(run.new_runtime("a".into(), true), Err(StoreError::RuntimeExists));
    assert_eq!(run.runtime_stores().len(), 1);
    assert_eq!(run.runtime_stores()[0].1.last_call(), Some(&1));
}

#[test]
fn runs_are_numbered_in_order() {
    let mut store = Store::new("/s");
    let names: Vec<String> = (0..12).map(|_| store.new_run::<u32>().0).collect();
    let expected: Vec<String> = (0..12).map(|i: usize| i.to_string()).collect();
    assert_eq!(names, expected);
}

#[test]
fn no_runtimes_do_not_agree() {
    let mut store = Store::new("/s");
    let (_, run): (String, RunStore<u32>) = store.new_run();
    assert!(!run.calls_agree());
}

#[test]
fn data_files_are_numbered() {
    let mut store = Store::new("/s");
    let (_, mut run): (String, RunStore<u32>) = store.new_run();
    assert_eq!(run.claim_data_path(), "/s/runs/0/data/0");
    assert_eq!(run.claim_data_path(), "/s/runs/0/data/1");
}
