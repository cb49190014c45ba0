# mxd_bar

A desktop bar for MapleStory Classic that reads the character's EXP from the
game window, turns the readings into EXP/min and EXP/h, keeps the 999 and
boss timers, and reports a farming session to the companion web site.

The logic is a Verus library (`src/`), with contracts and proofs; the
program around it (`app/`) captures the window, talks HTTP, draws the egui
bar and moves its window.

## Layout

- `src/sensor/` — reading the EXP value from a BGRA capture:
  `capture` (frames, blank test), `region` (finding the value bar by the
  shop button's colour, its `[`), `blocks` (8-connected blocks of a mask),
  `ocr` (template reading of the digit band), `digits` (the fixed-geometry
  reader and the overall read), `readback` (a drawn value reads back),
  `sampler` (the sample chain, level-up and
  OCR-dip rules, rates, sparkline, pause clock, the per-tick state machine).
- `src/state.rs` — the state the bar, the sampler and the network share;
  the EXP log.
- `src/bar.rs` — what the bar shows and what a click does.
- `src/panel.rs` — docking the bar's window to the top edge, hover folding,
  drops and position saving.
- `src/report.rs`, `src/net.rs`, `src/pk.rs` — the report form, request
  bodies and replies, device token, live PK rank.
- `src/config.rs` — the INI file and the settings it holds.
- `src/settings.rs`, `src/submit.rs`, `src/webview.rs` — the web shell's
  settings file, record submission with retries, docking and folding.
- `src/util.rs`, `src/text.rs`, `src/data.rs` — number and time formatting,
  timers, text helpers, job and map tables.
- `tests/` — tests of the library.
- `app/` — `main`, window capture, WinHTTP, the sampling and network loops,
  the egui window.
