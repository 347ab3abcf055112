# wazzi

The library of a differential fuzzer for WebAssembly System Interface (WASI)
implementations, with its logic proved by Verus.

## Layout

- `src/wasi_spec/`: the WASI specification the fuzzer works from: types that
  name one another and how they are read from the specification's parse
  tree, values, zero values, memory layout, and values drawn from the fuzzing
  input for a type.
- `src/env.rs`, `src/resource.rs`: the resources a run creates, how a call's
  results register new ones, and what each runtime knows of them.
- `src/strategy.rs`: the stateless strategy, which picks the next call and its
  arguments from the fuzzing input.
- `src/diff.rs`: whether the runtimes behaved differently on a call, by errno
  or by what their directories hold.
- `src/wasi/`, `src/preview1.rs`, `src/specz/`: the solver fuzzer's types,
  layouts, terms and effects, its environment, file-system model, function
  picker and argument generator.
- `src/witx.rs`: the annotated specification as its parser's tree of nodes,
  and how types, functions, `@input` terms (of both fuzzers' term languages)
  and `@effects` statements are read from it.
- `src/witx_doc.rs`: reading a whole document of that tree into a spec: type
  names, each read once, and modules, each a set of functions by name.
- `src/strace/`: a parser for `strace` output.
- `src/store.rs`: where runs, runtimes and call traces are kept on disk.
- `src/entropy.rs`: the fuzzing input and the bytes left of it, and the calls
  into the `arbitrary` crate that values are drawn through.
- `app/`: file-system, process and serialization code around the library.
- `tests/`: tests of the library.
