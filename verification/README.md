# task_manager

The worker library behind a desktop task manager for Hyprland/Omarchy: process
identities and protection, sampled system metrics, GPU client accounting,
application grouping, service/session/startup management, usage history and
the worker's line protocol. The logic is written in Verus: its functions carry
contracts that Verus proves. Three small items are trusted rather than proved, each
marked `#[verifier::external_body]` with a doc comment naming what it calls:
`text::string_of` (collecting characters into a `String`), `process::lossy_string`
(`String::from_utf8_lossy`) and `gpu::device_major` (`libc::major`).

Layout:

- `src/` — the verified library, one module per concern (`process`, `metrics`,
  `gpu`, `desktop`, `manage`, `services`, `history`, `monitor`, `command`,
  `slow`, `protocol`, `storage`, `desktop_entry`) plus shared text and table
  helpers (`text`, `table`).
- `tests/` — ordinary Rust tests that run the library on concrete inputs.
- `app/` — the worker program: procfs/sysfs reads, system calls, child
  processes, threads, JSON framing and the few floating-point rates. It hands
  plain values to the library and acts on what comes back.

Public proof functions named `lemma_*` state properties that hold across calls,
for example that a startup override reads back the value written, that the
first metrics sample reports no rates, and that service and user inventories
keep one row per key in order.
