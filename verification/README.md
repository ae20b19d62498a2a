# file_system_backup

Saves snapshots of file systems, compares them and makes them browsable again.

- `src/` is the library, verified with Verus: the index that stores a snapshot in a
  few byte strings, the records of a snapshot and how an index is built of them, the
  cursor and the listings that read it back, the comparison of snapshots, the rules
  that scans of the master file table follow, the in-memory file system, signals that
  cancel work and the decisions of the commands.
- `tests/` runs the library on concrete values.
- `app/` is the command line program around the library. It reads and writes files,
  scans disks, runs other programs and serves file systems.

Properties that relate several functions are public proof functions whose names start
with `law_`. What the library takes from other crates stands in small functions marked
`external_body`, each with a comment that says what is relied on.
