# stordy

The storage core of a small ledger service that keeps blocks and their
transactions.  Each block lives in a file of its own (`blocks/<uuid>`): the
encoded block behind a two-byte size field, then one record per
transaction, framed by its size field on both sides.  Two ordered
key-value stores (sled) map a block's public key to its file id and a
transaction's hash to the offset of its record.

- `src/` — the library, verified with Verus: the file layout and its
  readers (`blockfile`), big-endian fields (`codec`), the key-value store
  (`btree`), and the decisions of the block and transaction services
  (`block`, `transaction`), with the laws that tie writing and reading
  together.
- `app/` — the gRPC server: message types, service routing, locks and
  file I/O around the library.
- `tests/` — tests of the library on concrete values.
