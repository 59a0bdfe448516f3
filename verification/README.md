# sync_dir

Keeps pairs of directories in step in both directions. Each directory keeps
a history of its files (`.history.json`); comparing two histories gives the
files that one side holds newer than the other, and merging both directions
gives what to copy or remove, a deletion winning over a change and a later
change over an earlier one. A watching server synchronises the configured
pairs whenever a USB device is attached.

Paths are compared as paths, component by component: the library keeps and
looks them up in their normal form (their components pushed one by one onto
an empty path), so that `/r/x/`, `/r//x` and `/r/x` name one file.

Layout:

- `src/` is the verified library (Verus): events and histories
  (`event`, `history`), differences and their merge (`difference`), the
  watched pairs (`config`), the server's decisions (`server`), where the log
  goes (`logger`), reading time stamps (`timestamp`) and path handling
  (`paths`). Its data lives in the persistent collections of the `im` crate,
  reached through small trusted wrappers whose contracts name their contents.
- `tests/` runs the library.
- `app/` is the command-line program around it: files, sockets, USB
  devices, threads, logging and JSON.
