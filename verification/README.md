# vp9dec

A VP9 video decoder library whose functions state what they compute and are
proved to do so with Verus.

## Layout

- `src/` is the library. `src/lib.rs` lists its modules in the order in which a
  stream goes through them.
- `tests/` runs the library on concrete values.
- `app/` reads and writes files and reads the clock.

## Reading the contracts

Each module defines what its functions compute as spec functions over sequences
and integers. The `ensures` of a function says that it computes just that, and
when it fails instead. Public lemmas state what holds across functions: that
what is written to a container is read back, that the tiles cover the frame,
that a block without coefficients leaves its prediction alone, and so on.

`Decoder::decode_frame` takes one chunk of a container. What a block holds, its
mode info and its samples, is read by a `BlockLayer` that the caller supplies.
The library decides where the blocks are and in which order they come, checks
what the layer says of each, and stores it. A layer states by relations what its
methods do, and the contracts of the decoder say which method is asked about
which block, and with what; `test_support::script` has a layer that plays back
prepared blocks. The interpolation filters are supplied by the caller of
`predict_inter` in the same way.
