# parallel_k

k-anonymization of tabular data by generalizing quasi-identifier columns,
with two algorithms: Mondrian (multidimensional median partitioning) and
Incognito (full-domain generalization searched over the lattice of
taxonomy levels). The library is written in Verus: its behaviour is stated
in `requires` / `ensures` contracts and proved.

Layout:

- `src/data/`: the in-memory table (`Table`, integer and text columns with
  missing cells), quasi-identifiers and the `Dataset` that pairs a table with
  the taxonomies of its quasi-identifiers.
- `src/taxonomy/`: categorical taxonomies built from label hierarchies (with
  lowest common ancestors), numerical taxonomies of nested intervals, the
  fixed hierarchies of the Adult census attributes, and the manager that
  holds one taxonomy per column.
- `src/algorithms/`: the `AnonymizationAlgorithm` trait, Mondrian (its
  output is proved k-anonymous) and Incognito (dimension tables, frequency
  tables, roll-ups, the lattice search and the assembly of the output).
- `src/data_interface.rs`, `src/anonymize.rs`, `src/text.rs`: cleaning of
  `?` cells, the anonymizer front end, and the text helpers the contracts use.
- `app/`: reading and writing CSV through polars, loading hierarchies from
  JSON through serde, and the conversions between polars frames and `Table`.
- `tests/`: tests run against the compiled library.
