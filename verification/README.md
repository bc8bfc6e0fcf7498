# LabTrace

Forensic timeline reconstruction and cross-process threat correlation for
Linux audit telemetry, as a Verus-verified library with a small command-line
front end.

## Layout

- `src/text.rs` — character-level string primitives (search, case, split,
  trim, decimal numbers), each proved against a short specification.
- `src/event.rs` — the event model; JSONL framing, numbering, decode errors
  and timeline order.
- `src/rules.rs` — the ten single-event rules (LT001–LT010).
- `src/proctree.rs` — the process tree: parents, ancestry, rendered chains.
- `src/taint.rs` — taint propagation from sensitive sources to sinks.
- `src/correlate.rs` — grouping of findings and flows into incidents.
- `src/report.rs` — the terminal report, the JSON report and the SARIF
  2.1.0 document, each built as a JSON value with an exact contract.
- `src/document.rs` — the JSON value type and its pretty-printing by
  serde_json.
- `src/sorted.rs` — strictly increasing pid lists.
- `app/main.rs` — argument parsing, file input, serde decoding of records,
  printing and exit codes.

Each public function states its result exactly over specification
functions; the laws of the library (ordering of the timeline, chain
ancestry, taint sinks, noise suppression, severity ordering, ...) are proof
functions named `law_*` next to the code they are about.
