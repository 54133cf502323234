# mysticeti_twin

A deterministic, stake-weighted, Mysticeti-style research digital twin whose logic is
written in Verus and carries machine-checked contracts. It is an educational model, not
production Sui consensus.

## Layout

- `src/` — the verified library.
  - `model` — authorities, committees (validated, stake-weighted, with quorum and
    fault-bound arithmetic and the quorum-intersection laws), blocks and their
    canonical SHA-256 ids.
  - `identity`, `render`, `lexical`, `sorting`, `parsing` — byte framing of block
    preimages, decimal and hex rendering, UTF-8 byte order on texts, a stable insertion
    sort, and decimal parsing.
  - `wave` — the three rounds (proposal, support, certificate) of each slot.
  - `dag` — the validated DAG: transactional insertion and a build that admits blocks in
    (round, id) order.
  - `decision` — the direct decision rule: one decision per proposal (or a skip), with
    deduplicated support and certificate-author evidence.
  - `safety` — certificate uniqueness and commit agreement under the honest
    single-support and Byzantine-stake assumptions.
  - `trace` — the invariant report, the independent decision audit, and strict trace
    verification (schema, seed, configuration, committee, events, DAG, decisions, report,
    and comparison with a regenerated run).
  - `draws` — the seeded network generator: each latency and loss draw is named as a
    function of the seed and the draws taken before it.
  - `simulator` — the seeded event-driven simulation with latency, packet loss, crashes
    and Byzantine equivocation, stated wave by wave; one configuration gives one run.
  - `equality` — field-by-field comparisons used by verification.
- `tests/` — scenario tests run against the compiled library.
- `app/` — the command-line program: argument parsing, JSON encoding of traces, file
  I/O, and the parallel packet-loss campaign.

The library calls `sha2` (block ids), `rand` and `rand_chacha` (seeded latency and loss
draws) through a few trusted wrappers whose contracts state only what those crates
document: a seeded generator reproduces its output, a latency lies in its range, and a
zero-ratio loss distribution never drops.
