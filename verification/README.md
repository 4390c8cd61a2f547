# Sluice

The decision core of a rate-limit-aware, multi-provider proxy for OpenAI-compatible
LLM APIs, written in Verus: every rule of pacing, routing, admission, authentication,
accounting and configuration is a function with a contract, and the contracts are
proved.

## Layout

- `src/` is the library. Nothing in it reads a clock, a file or a socket: time comes
  in as a number, and what is to be done comes out as a value.
  - Pacing: `pool` (sliding windows, lanes, rendezvous affinity), `dispatch` (who is
    served, when, and in which order), `governor` (per-model pressure).
  - The data plane: `proxy` (the rules around one request), `exchange` (the walk
    through a routing plan), `harvest` (what is measured on answers), `models`,
    `cache`.
  - Operators: `auth`, `setup`, `settings`, `console`, `net`, `config`.
  - Accounting: `metrics`, `history`, `ledger`.
  - Underneath: `text`, `seqs`, `table`, `json`, `reply`, `hashing`, `crypto`.
- `app/` is the program around it: the HTTP server and client, files, the clock,
  prices in floating point.
- `tests/` runs the library from outside.

## What is proved

The central promise is pacing: whichever key serves a request, at most its rate of all
its grants lie in the window that ends with it (`dispatch::law_no_key_exceeds_its_rate`),
swapping the pool hands no key a fresh window (`law_a_rebuild_forgets_no_grant`), and
the margin on top of the provider's window absorbs requests that arrive late
(`pool::law_the_margin_absorbs_jitter`). Functions named `law_…` state what holds
across several functions; everything else stands in the contract of the function it is
about.

## What is trusted

Calls into `base64`, `hmac`, `sha2`, `pbkdf2`, `subtle`, `getrandom` and `serde_json`
stand behind small functions in `crypto` and `json`, each with a contract that says what
is believed of the call. So do three functions of the standard library: reading bytes as
UTF-8, strictly and leniently (`crypto`), and appending to a `String` (`text`).

## Running

`HOST`, `PORT` (loopback and 8000 by default), `DATA_DIR` and `TRUST_PROXY` configure
the program; everything else is managed in its settings and applies live. `--health`
probes a running instance.
