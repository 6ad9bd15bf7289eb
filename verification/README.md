# mikui

The backend of a viewer of Kafka messages, with its rules stated as contracts
and proved by Verus.

- `src/` is the library. `kafka/` holds the buffer of messages, the search, the
  rounds of a read, what of it may be shown and in which order, the measuring of
  the quota, and sending. `config/` holds saved connections and their secrets,
  `favorites/` saved messages, `helpers.rs` the configuration of the client,
  `diag.rs` the records of crashes, `link.rs` links to messages.
- `app/` is the process around it: files, the keychain, the thread that owns the
  client of Kafka, and the arithmetic of speeds in floating point. It performs
  what the library decides and hands back what came of it.
- `tests/` runs the library, with the client library, the JSON parser and the
  calendar that it calls.

A read goes in steps. `Reader` says what is to be asked of the cluster next
(bounds of partitions, a move, a batch of messages); the answer goes into its
next method. What is published is never overtaken by what is read later: see
`law_published_is_never_overtaken`, `law_frontier_only_recedes` and
`law_publishing_keeps_the_order` in `src/kafka/rounds.rs`.
