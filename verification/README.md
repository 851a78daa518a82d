# portman

A local port registry: it records which port each project on a machine
uses, refuses conflicting reservations, and suggests the next free port.

- `src/` is the library, verified with Verus: the registry and its rules
  (`domain`), the decisions of each command (`commands`), reading what
  `lsof` and `ps` print (`infrastructure`), and string helpers (`text`).
  `domain/laws.rs` and the `law_*` proof functions state what holds of the
  operations taken together.
- `app/` is the command-line program around it: argument parsing, the JSON
  file on disk, the machine's sockets, and printing.
- `tests/` runs the library on concrete values.
