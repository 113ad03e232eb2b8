# narwhal_storage

The storage for the memory pool of a Narwhal node, written and proved in Verus.

It holds batch certificates by round, and the transmissions that they carry. A
certificate is inserted upon request if it passes a check: it is new, its batch is
new, its author and its signers are in the committee and a quorum, its timestamps are
live, its transmissions are at hand, and so are its certificates of the round before.
When the storage moves to a later round, the certificates up to the GC round, that
round included, are removed, and with them the transmissions that no other
certificate declares.

## Layout

- `src/ids.rs`, `src/transmission.rs`, `src/signature.rs`, `src/batch.rs`,
  `src/committee.rs`, `src/context.rs`: the data, as plain values.
- `src/ordered.rs`: maps and sets that remember an order, as sequences.
- `src/model.rs`: what the storage holds, and what each request does to it.
- `src/index.rs`: the ordered maps and sets of `indexmap`, and what is trusted of them.
- `src/storage.rs`: the storage.
- `src/consistency.rs`, `src/collection.rs`, `src/undo.rs`: when the maps of the storage
  agree with each other, and proofs about insertion, removal and garbage collection.
- `src/laws.rs`: what holds over several requests.
- `app/`: the storage over the types of snarkVM, shared between tasks, with the ledger
  that it asks.

## What is trusted

The calls into `indexmap` (`src/index.rs`), and the decoding of an account signature and
of its signer by snarkVM (`src/signature.rs`). The ledger and the clock are asked in
`app/`; the library takes what they answer as arguments.
