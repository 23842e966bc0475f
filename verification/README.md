# Hearth

Local network intelligence for a home network: watch which devices talk to
whom and how much, learn each device's normal behaviour, flag what departs
from it, and enforce simple rules with nftables.

## Layout

- `src/` — the verified library (Verus). Every function carries a contract
  and is proved against it.
  - `store` — the tables of devices, traffic samples, profiles and anomalies,
    with their ordering and uniqueness invariants.
  - `capture` — per-device byte counters over a window of Ethernet frames,
    frame parsing, top destinations, demo traffic.
  - `stats` — profile observation, anomaly detection, recording findings,
    the weekly digest.
  - `rules` — block hours, rule evaluation, nftables commands.
  - `dashboard`, `client` — what the HTTP API answers, and how the client
    builds requests and reads replies.
  - `monitor` — recording a window of traffic; configured labels.
  - `oui` — vendor lookup by MAC prefix.
  - `vad` — 16-bit audio, chunks, the wake-word rule, the log of gate events.
  - `net`, `text`, `types`, `config` — addresses, text helpers, records,
    the default configuration.
- `app/` — the programs around the library: the daemon (capture, HTTP
  dashboard, SQLite persistence), the command-line client and the voice
  gate. Floating-point computations (baselines, speech scores, byte
  formatting) live here too, and so does the GeoIP country lookup, whose
  reader can panic on a damaged database and is therefore run under
  `catch_unwind`.
- `tests/` — tests of the library.

Timestamps are Unix seconds (UTC) throughout the library.
