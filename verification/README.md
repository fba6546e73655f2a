# waylauncher

A GTK4 application launcher for Wayland, with its logic verified by Verus.

- `src/` is the verified library:
  - `launcher.rs`: removing field codes from an Exec line and building the command to
    start (directly, or in a terminal emulator);
  - `desktop_entry.rs`: the entry the launcher lists, and search matching;
  - `scanner.rs`: decoding desktop files, choosing the entries shown, one entry per
    application id, ordering by name;
  - `history.rs`: the run dialog's history file and arrow-key navigation;
  - `completion.rs`: tab completion of command names and paths;
  - `config.rs`: the command-line options and the window they select;
  - `text.rs`: character-level string functions shared by the others.
- `app/` is the GTK program: windows, file system access, environment, starting
  processes.
- `tests/` runs the library on concrete inputs.
