# protohackers

Verified core of five small network servers.

- `src/` — the library, verified with Verus:
  - `smoke_test`: what the echo service sends back;
  - `prime_time`: primality of whole numbers and the answer to a request;
  - `means_to_an_end`: the nine-byte price messages and the running mean;
  - `budget_chat`: user names, the room's texts and its membership;
  - `unusual_database`: the key-value store answered over datagrams;
  - `tcp`, `errors`, `cli`: text decoding, the shared error type, settings.
- `app/` — sockets, threads, command-line parsing (clap) and JSON (serde),
  one module with a `main` per server.
- `tests/` — tests of the library on concrete values.
