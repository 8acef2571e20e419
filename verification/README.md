# myrhiza

The kernel library of the Myrhiza peer-to-peer application runtime: the
per-topic event DAG, the buffer of events waiting for dependencies, the
intake that feeds both, heads summaries and backfill planning, drift
detection, the signed distribution logs (revocations and publications)
with their canonical wire codec, and the identity and install checks.
The logic in `src/` is verified by Verus; the calls into the hashing,
signature, encoding, clock and randomness crates sit behind small
trusted wrappers whose contracts name what those crates return.

## Layout

- `src/` — the verified library.
  - `bytes`, `ids`, `crypto` — byte helpers, 32-byte identifiers and the
    BLAKE3 / Ed25519 / bech32 / hex calls behind stated contracts.
  - `event`, `event_builder`, `identity`, `keystore`, `install` — events
    and their canonical encodings, key pairs, the on-disk key layout
    rules, bundle install checks.
  - `dag`, `pending`, `ingest` — the DAG, the pending buffer, and the
    intake that inserts, buffers and drains, plans backfills, answers
    heads summaries and authors events.
  - `topo` — the canonical topological order of an event set (by causal
    depth, then wire hash), a function of the events alone.
  - `replay` — the state as the fold of the component's answers over the
    DAG's canonical order: full replay, the single-insert fast path, the
    digest at a drift anchor, and the convergence of peers that hold the
    same events.
  - `topic_state` — one topic's state, the step that feeds an inbound
    event through intake, replay, the drain of stashed drift messages whose
    anchor is now covered, and drift emission, and the same step for a
    locally authored event.
  - `heads_summary`, `drift`, `drift_message`, `drift_inbox`, `digest` —
    heads summaries, drift rate limiting, drift messages, their stash and
    digest cache, and the digest log.
  - `distribution/` — signed revocation and publication logs, their
    topics, dispatch checks, head summaries, backfill and wire codec.
  - `runtime`, `gossip`, `state_apply`, `state_propose`, `interaction`,
    `backend` — runtime configuration and decisions, message routing, and
    the kernel side of the WebAssembly components.
- `tests/` — tests run against the compiled library.
- `app/` — the parts that touch the file system, the wall clock or
  render text: the identity store on disk, error and halt messages, and
  authoring a proposed payload stamped with the wall clock.
