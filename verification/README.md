# arrow_concat

Concatenation of Arrow arrays and record batches, verified with Verus.

- `src/concat.rs` and `src/batches.rs` hold the two entry points, `concat` and `concat_batches`, with
  their contracts; `checked_concat` and `checked_concat_batches` test the limits of the Arrow format
  first.
- `src/model.rs` models arrays: what they store and what their rows mean. `src/limits.rs` states which
  results offsets, keys, run ends and buffer numbers can number. `src/laws.rs` states what holds of
  concatenation as a whole.
- `src/kernels.rs`, `src/dictionary.rs`, `src/pieces.rs` and `src/capacity.rs` hold the kernels for flat
  arrays, dictionaries, nested arrays that cannot be copied whole, and room; `src/joins.rs`,
  `src/slices.rs` and `src/parts.rs` what they are proved from.
- `src/checks.rs` and `src/validity.rs` test the limits, and whether arrays agree with themselves.
- `src/outside.rs`, `src/builders.rs` and `src/records.rs` wrap the functions of the Arrow crates that
  the kernels call. Their contracts are taken for granted.
- `app/` offers the kernels on Arrow's own types.
