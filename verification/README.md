# desktop_snapshot

A local snapshot and restore tool for the Windows desktop: it records the
items of the user and public desktops (shortcuts, links, files and folders),
the targets of `.lnk` shortcuts, a copy of each item's content, the icon
layout and the monitors, and restores missing items and icon positions from
a snapshot.

## Layout

- `src/` is the library, written in Verus and verified: the desktop data
  model and snapshot comparison (`desktop`), snapshot ids, titles, manifests
  and the listing order (`storage`), the decisions of backup and restore
  (`platform`, `session`), item classification and sorting (`scan`),
  screenshot names and capture order (`capture`), `%NAME%` expansion
  (`environment`), the command lines of the scheduled task and of elevation
  (`commands`), screenshot data URLs (`images`), text helpers (`text`), and
  the properties that span several functions (`laws`).
- `app/` is the program around it: the `desktop-snapshot` command line, the
  commands of the window, and the file, process and Windows shell work.
- `tests/` runs the library on concrete values.
