# pacnix

A unified package-management layer for Arch Linux over pacman, the AUR and
Nix: one resolver that ranks candidates from every backend and explains
its choice, plans that each backend carries out, and a record of where
installed software came from.

## Layout

- `src/` — the verified library (Verus). Each public function states what
  it returns in its contract; the laws that span several functions are
  public proof functions.
  - `text`, `numbers` — character-level string helpers and number parsing
    with their specifications.
  - `version` — pacman version comparison (`vercmp`) and its laws.
  - `model`, `command`, `interaction`, `backend` — the shared data model
    and the backend interface.
  - `resolver` — candidate ranking and the resolution decision.
  - `parsers`, `alpm`, `aur`, `chain`, `nix` — the backends' parsing and
    planning, and the AUR dependency walk.
  - `executor` — running one plan as a lane and turning its result into
    receipts.
  - `config`, `cli`, `session` — configuration, the command line and the
    decisions of an interactive session.
  - `flow` — the course of install, remove and upgrade as a state machine
    (plan, summary, dry run, privileges, confirmation, execution,
    reconciliation), the follow-ups of each install lane, and the totals
    and grouping of the summaries.
- `tests/` — tests of the library.
- `app/` — the `pacnix` program: command-line I/O, the SQLite store, HTTP
  requests to the AUR, running pacman, makepkg and nix, and JSON/TOML
  reading; it performs the actions that `flow` decides on.
