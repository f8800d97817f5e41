# infernal_pf2e_parser_simple

A verified library for a Pathfinder 2e parsing service: it turns source
text into structured, non-authoritative rule candidates, runs each
parse at most once per source and parser version, and writes the `scope` strings of the governed
Requests it receives and submits. Its behaviour is stated in
`requires` / `ensures` contracts and proved with Verus.

## Layout

- `src/text.rs` -- character-level text operations (trimming, lines,
  words, splitting, searching, joining, decimal integers), each with a
  spec function saying what it computes.
- `src/domain.rs` -- rule types, source references, candidates, and the
  `CandidateRepository` trait.
- `src/error.rs` -- the service's errors and their messages.
- `src/encoding.rs`, `src/ids.rs` -- base64url digests and UUIDs, through
  the `base64` and `uuid` crates.
- `src/parser.rs` -- the block parser: labeled lines become normalized
  fields, everything else is kept as inference, and confidence is only
  ever lowered.
- `src/book_adapter.rs` -- converts extracted rulebook pages (actions,
  feats, conditions) into blocks the parser reads.
- `src/dispatch.rs` -- decodes a `pf2e.parse` scope, runs the parse, and
  writes one `pf2e.rules.admit` scope per candidate.
- `src/kernel_client.rs` -- the kernel port, the submission body, request
  paths and the signing clock.
- `src/postgres_candidate_repository.rs` -- the parse run over a
  transactional store, and the row encoding of candidates. The store is
  seen through the `RunTransaction` port as a map from run keys to the
  candidates recorded under them; `parse_once_in` is proved to return and
  record exactly `parse_effect` of that map, and the idempotency laws
  (`law_retried_parse_reuses_candidates` and its neighbours) are stated
  over `parse_effect`. The PostgreSQL implementation of the port is in
  `app/` and is trusted to meet the port's contracts.
- `app/` -- the PostgreSQL store and the kernel client (network and
  database I/O), written against the library.
- `tests/` -- scenario tests for each module.

Laws that span several functions are public proof functions whose names
begin with `law_`.
