# PingBoard core

PingBoard is a multi-host ping monitor for Windows. This crate holds its
logic, verified with Verus: what each function returns is stated in its
`requires` / `ensures` contract and proved.

## Layout

- `src/` — the verified library:
  - `text.rs` — whitespace trimming, decimal rendering, prefix tests;
  - `model.rs` — probe status, settings, saved targets and configuration;
  - `stats.rs` — settings normalisation, the bounded result history and
    the probe counters of a target;
  - `events.rs` — event kinds and levels, the status-transition rule, event
    texts, the event store (pending events, one ring per target, sequence
    numbers) and the event file's lines;
  - `calendar.rs` — days since 1970-01-01 to civil dates;
  - `export.rs` — status names, CSV/HTML escaping, time stamps, the events
    CSV and the report format names;
  - `report.rs` — the CSV, text and HTML target reports;
  - `fonts.rs` — font family names from registry entries;
  - `import.rs` — which files are read as text or tables, byte decoding,
    table row cleaning;
  - `ping.rs` — reading `ping` output and ICMP echo replies;
  - `control.rs` — the decisions behind adding, editing, starting and
    stopping targets and behind each probe round.
- `tests/` — tests of the library.
- `app/` — the desktop application around it: window and commands, probe
  threads, the Win32 ICMP calls, files, the registry and JSON forms.
