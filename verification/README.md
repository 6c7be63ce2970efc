# openom

The core of a family-tree application for people who do not trust their server: what a tree of claims looks like to a
reader, who may change who belongs to a tree, and how entries are sealed, each with its contract proved by Verus.

## Layout

- `src/projection/` turns a set of records into people, families, events and conflicts. The result does not depend on
  the order or the repetition of the records, where records with one id are one record.
- `src/tree.rs` and `src/clock.rs` mint and merge the operations of a tree under a hybrid logical clock.
- `src/keyring_api.rs` holds what both keyrings share: member ids that certify their keys, the membership view and the
  envelope.
- `src/keyring_chain/` is the keyring as a chain of signed revisions: its wire form, its structural rules, what may
  follow what, and its transport.
- `src/keyring_dag/` is the keyring as a graph of signed operations: who may do what, quorums, anchors, checkpoints,
  compaction and transport.
- `src/sealer.rs` and `src/sync.rs` decide what an entry is sealed as, under which key, and which entries open.
- `src/order.rs`, `src/sorted.rs`, `src/sorting.rs`, `src/tables.rs`, `src/text.rs`, `src/layout.rs`,
  `src/protobuf.rs` and `src/digest.rs` are the ground they stand on.
- `app/` connects the core to the crates around it: engines, ciphers, codecs, stores and the browser.
- `tests/` runs the core.

The keyring engines, the signature scheme, the cipher, the operation fold and the stores are arguments of the core's
functions: a contract says what each is handed, and what is made of whatever it answers.
