# nn

A small neural-network library whose integer, byte and text logic is
verified with Verus.

- `src/` — the verified library (`nn`):
  - `tensor` — the tensor type (one value per cell of its shape, as a type
    invariant), shape products, transpose and row broadcast;
  - `rng` — SplitMix64, with laws on its state stream and the injectivity of
    its output mix;
  - `autograd` — parameter ids, the Wengert tape (a node's id is its
    position; recording keeps every node reading only earlier nodes) and the
    gradient store;
  - `checkpoint` — the native checkpoint format (the manifest records each
    parameter's byte offset into the data section): writer, manifest grammar
    and parser, loader, and the save/load round-trip law;
  - `layers`, `bridge`, `adapter`, `bench` — the parameter-free layers, path
    and fan helpers, the browser-widget decisions (network plan, name lookup,
    batch split), the GPU adapter note, and the benchmark harness's command
    line, JSON string escaping, machine object and report document.
- `tests/` — tests of the library.
- `app/` — the floating-point side (tape backward pass, kernels, layers,
  optimisers, training loop), the wasm-bindgen surface and the benchmark
  harness, built on the library.
