# crdt-sync

State that several nodes change at the same time, without locks and without
conflicts: registers in which the last writer wins, sets in which an addition wins
over a concurrent removal, lists that are edited in several places at once, a store
of all three, and a relay that passes the changes of stores on.

- `src/` is the library.  Every function in it is verified by Verus against its
  contract.  The modules that end in `_model` say what the operations do, as functions
  of mathematical states; those that end in `_laws` say what follows: that replicas
  converge whatever the order of arrival, that nothing comes of receiving an operation
  again, what a merge does.
- `tests/` runs the library on concrete values.
- `app/` is the relay as a program: WebSockets, MessagePack, an SQLite database, and
  the store as a JavaScript class.

Believed without proof is what the contracts of five functions say of the crates they
call: JSON text (`src/json.rs`), random UUIDs (`src/unique.rs`), Ed25519 keys and
signatures (`src/security.rs`) and MessagePack frames (`src/relay.rs`).
