# wisdom

A small columnar data library with a versioned feature store, written in
Verus: the data model and its rules are executable Rust whose behaviour is
stated in `requires`/`ensures` contracts and proved.

## Layout

- `src/models/column.rs`, `src/models/column/fill.rs`: typed columns with
  missing cells, named behaviors, atomic element updates and removals, filling.
- `src/models/cell.rs`: reading raw cell text as integers, booleans and strings.
- `src/models/table.rs` and `src/models/table/`: tables read from CSV bytes,
  the check-out / write-back protocol for columns, deterministic train/test
  splits, and the numeric rows that feed tensors.
- `src/feature_store.rs` and `src/feature_store/`: per-feature version
  histories with pruning, content-addressed snapshots (SHA-256 over
  length-prefixed pairs), table reconstruction and the inputs of drift
  detection.
- `src/ml/`: model artifact records and the inputs of inference.
- `src/laws.rs`: properties that relate several operations, proved from the
  operations' contracts.
- `app/`: the parts that read files, compute with floating point or drive
  `candle` models (CSV files, scaling, drift scores, tensors, training, saving
  and loading artifacts, running inference).

Floating-point cells are held as `scalar::Real`, the IEEE-754 bit pattern of
an `f64`; the library moves them and never computes with them.
