# RepoDeck

RepoDeck keeps the windows of several projects apart on a Windows desktop. Each project has a
*workset*: a repository and the windows that belong to it. Switching to a workset brings its windows
to the main screen and parks the windows of all other worksets on the remaining screens.

This crate holds RepoDeck's decisions as a library whose behaviour is stated in contracts and proved
with Verus.

- `src/domain` – worksets, monitors, placements, settings, and the state between runs.
- `src/windowing` – windows as they are found on the desktop, and how one is told from another.
- `src/application` – the decisions: where windows are parked and restored, how a switch is carried
  out and taken back, what is repaired, recovered, launched and shown.
- `src/diagnostics` – how long log files are kept.
- `src/tools` – the agent hook, the soak test and the window watcher.
- `src/text.rs`, `src/order.rs`, `src/winpath.rs`, `src/ids.rs`, `src/clock.rs`, `src/maps.rs`,
  `src/keyed.rs`, `src/counting.rs` – texts, orders, Windows paths, ids, times, maps and counters.

Paths are texts in the form that Windows gives them, ids are the 128-bit numbers that they stand for,
and shares of a monitor are whole billionths. The desktop is reached through the trait `WindowOps`;
the library records every call that it makes, so a contract can say exactly which calls were made and
in which order.

Functions named `law_…` state what holds of the library as a whole: that parked windows never
overlap, that a switch leaves nothing off the screens, that every window which a switch changes was
journaled before, that a repair leaves nothing to repair, and so on.

`app/` is the program around the library: files, processes, logs, and a desktop that is read from a
file. `tests/` runs the library.
