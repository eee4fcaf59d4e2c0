# snapref

Shadow snapshots of a working tree, one per agent turn: content-addressed
objects, numbered turns, line diffs, line-to-turn blame and a restore that keeps
unsaved work. The library is written in Verus: every function states what it
returns or changes, and the proofs are part of the source.

## Layout

- `src/` is the verified library. It does no I/O. A store, a directory listing
  and the contents of files come in as plain values, and what has to be written
  goes out as plain values.
  - Text and numbers: `text`, `decimal`, `order`, `timefmt`.
  - Diffs: `script` (what an edit script is), `myers` (the shortest one),
    `hunks` and `diff` (the unified format), `blame`.
  - The store: `sha1`, `object`, `store`, `tree`, `snapshot`, `audit`.
  - The working tree: `glob`, `walker`, `restore`, `guard`.
  - Commands: `cli`, `args`, `commands`, `inspect`, `compare`.
  - Properties of the whole: `readback`, `listing`, `lookup`, `statistics`,
    `succession`, `survey`, `restoration`, `soundness`.
- `tests/` runs the library, on a working tree that is held in memory.
- `app/` is the program: arguments, environment, clock, disk and terminal.

## What is proved

The functions named `law_…` state what holds across the library. Among them:

- An edit script is the shortest there is, and the two directions of a
  comparison mirror each other.
- A file that a snapshot recorded reads back at its path with its bytes and exec
  bit. Looking a path up agrees with the listing on every sound store.
- History is append-only, and an unchanged tree still records a turn.
- A full restore leaves no change against the target, and a second one does
  nothing.
- Of every file that a restore was told of, hidden by an ignore rule or not, the
  bytes are in a snapshot or in the backup turn before it is overwritten or
  deleted, unless discarding was asked for twice. A file that it was not told of
  is left alone.
- A sound store stays sound when a snapshot is taken, and an audit of a sound
  store finds nothing.

Read-back laws speak of objects that are *held*: stored under the digest of
their bytes, with no other content of the same SHA-1 digest in the way.

## What is trusted

Three items of the standard library: `String::push`, `std::str::from_utf8` and
`String::from_utf8_lossy`. Their contracts stand in `src/text.rs`.
