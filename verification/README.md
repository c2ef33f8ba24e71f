# always-on-memory

A memory agent that knows the topology of what it stores: where memories connect, where
they diverge, and which are revisions of which.

- `src/` is the library. Every decision of the agent stands there, with a contract that
  [Verus](https://github.com/verus-lang/verus) proves.
- `app/` is the daemon around it: the DuckDB store, the language model client, the inbox
  watcher and the HTTP interfaces.
- `tests/` runs the library on examples.

## The library

| Module | What it decides |
|---|---|
| `binary64` | double precision arithmetic over bit patterns, with its laws |
| `decimal` | numbers as decimal text |
| `text`, `wordset` | searching and cutting text; sets of words |
| `ranking` | the order of scores |
| `math` | Jaccard and cosine similarity |
| `edges` | edge scores, neighbours, and all edges of a set of memories |
| `flightscore` | the flight classification of memories and of the graph |
| `revision` | the cascade of regimes that finds revisions and duplicates |
| `ingest` | from content to a memory |
| `consolidate` | what a consolidation cycle finds, asks and keeps |
| `query` | what a question is answered from |
| `llm` | requests to a language model, and JSON in its replies |
| `db` | rows of the store |
| `api`, `localrecall`, `config` | the interfaces and the configuration |

## Numbers

All scores are IEEE 754 binary64 numbers, held as bit patterns in `Binary64` and computed
in integers. `f64::to_bits` and `f64::from_bits` lead there and back.

## What is trusted

A few functions of `std`, `serde_json`, `sha2` and `hex` are called behind wrappers whose
contracts are stated and not proved: lower case, alphanumeric characters, pushing a
character, JSON of texts and of lists, the SHA-256 digest and hexadecimal. Each says in
its doc comment what is claimed.

## Regimes of a domain

A domain adds regimes of its own to the cascade through the trait `Regime`. Next to each
answer of a regime the trait has a `may_` function that says what the answer may be, and
the contracts of `CascadeEngine` speak of every registered regime through them. Verus
checks the answers of the regimes that it sees against these functions; a regime that is
written outside Verus leaves them as they stand in the trait, and may answer anything.
