# vram_booster

Keeps the focused window's VRAM from being evicted on GNOME: a daemon
protects, through the Linux dmem cgroup controller, most of the VRAM for the
focused app's scope, takes the protection back from the app focused before,
and protects each user's `session.slice`.

- `src/` is the verified library (Verus): reading the dmem and `/proc` files
  (`text`, `dmem`, `cgroup`), the settings from the environment (`config`),
  the daemon's decisions on focus changes and slice settings (`booster`), the
  search for a process's app.slice unit (`scope`), and what the status tool
  prints (`status`). Each public function states in its contract what it
  returns; the `law_*` proof functions state what holds across them.
- `app/` runs the library: file and D-Bus I/O, the async runtime, logging, and
  the floating-point boost ratio. Started under a name ending in `ctl` it is
  the status tool.
- `tests/` exercises the library on concrete values.
