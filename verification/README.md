# playground

A set of small Rust exercises (an actor system that counts primes over a
channel bus, comma reports over text files, file hashing, channel producers and
consumers, two procedural macros) whose logic is written with formal contracts and proved.

- `src/` is the verified library:
  - `primes` — odd trial division and its exact answer, including where the
    squared divisor would overflow;
  - `text` — decimal numerals, `u64` parsing as `str::parse` does it, padding;
  - `packet` — the bus packet, its JSON text (through serde_json) and routing;
  - `sorting` — stable order of keys, and its uniqueness;
  - `actor` — dispatcher, counting worker and reducer as state plus decisions,
    with the round trip of the range payload between dispatcher and worker;
  - `mistake` — comma offsets, line bounds and the comma report;
  - `hash` — SHA3-256 (through sha3) and lowercase hexadecimal;
  - `channel` — a non-blocking producer and consumer over crossbeam channels;
  - `errors` — an error type and what `nothrow` makes of a failing body;
  - `fib` — the unfolding rule of `fib!` and what it computes.
- `app/` is the program around it: threads and polling loops of the actors,
  mailboxes, file and stdin reading, printing, async HTTP, and the syntax-tree
  rewriting of the macros.
- `tests/` runs the library on concrete values.
