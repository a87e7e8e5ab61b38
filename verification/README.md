# transformer_cpu

Plans the passes of a Llama-style transformer on the CPU, verified with Verus.

- `shape`, `affine`, `operator`, `transpose`: shape operators and the integer
  matrices that go with them.
- `data_type`, `tensor`, `row`: what tensors and tables take in storage.
- `model`: the numbers of a model and the axis lengths that follow from them.
- `request`: the requests of a batch, their order in a pass, their rows and
  places.
- `expr`, `pass`: views of tensors, and the kernel calls of a pass on them.
- `agreement`, `writes`, `reads`, `run`: that the shapes which meet in a call
  agree, that a pass writes only to what is its own and reads caches only after
  the new tokens are there, and what follows of running it with any kernels.

`Transformer::decode` takes a batch and returns the whole pass: the order of the
requests, the storage, and every kernel call. `app/` runs such a pass on a
backend that brings the weights, the storage and the kernels.

Shapes and operator results are held in `smallvec` vectors. What is believed of
that crate without proof is stated in `shape.rs` and `operator.rs`.
