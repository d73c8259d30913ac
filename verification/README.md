# hivllm

All your models. One sticky hive. 🐝

A hive gathers OpenAI-compatible backends behind a single endpoint: it finds
them on this machine, in containers and where the operator says, asks them what
they serve and how busy they are, and forwards each request to the least loaded
backend that serves its model.

The library under `src/` is written in [Verus](https://github.com/verus-lang/verus):
every function there is verified against the contract in its header, except for
the small wrappers round calls into other crates and `std` that are marked
`external_body`. Their contracts, and those of the few foreign functions that are
specified where they are used, are trusted: the doc comment of each says what it
claims of the call.

- `hive` — the state of a hive and its decisions: membership (`membership`),
  chains of hives (`paths`) and how they expire (`expiry`), ranking of backends
  (`routing`), loads (`loads`), the way of a request (`request`, `proxy`), what
  clients are told (`replies`) and what is shown (`view`)
- `discovery`, `docker` — where to look for backends (`ports`), what to make of
  what is found (`probed`, `merge`), and the keys to use (`credentials`)
- `load` — reading and combining loads
- `logging` — the query log: entries, streamed responses (`stream`) and rolled
  files (`archive`)
- `multipart` — forms of audio uploads, and that reading one undoes writing it
  (`form`)
- `config`, `access` — configuration, API keys and browser origins
- `json`, `text`, `table`, `order`, `deep` — JSON values, text, small tables,
  stable sorting and the models that contracts speak of

Functions named `law_…` are proofs: each states, in its `ensures`, something
that holds of the library as a whole.

The program under `app/` does what the library cannot: network, files, timers and
command line. It asks the library what to do, does it, and hands back what came
of it.
