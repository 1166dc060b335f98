# diskonaut

The core of a disk-usage explorer: the in-memory tree that a directory scan
fills, and the decisions of the threads around it.

- `src/state/files/file_or_folder.rs` — the tree of folders and files, with
  contracts for adding files and folders along a path and for looking a path
  up, and proofs of what holds of the tree afterwards: what was added is found
  again, everything else is left alone, no item is counted for more bytes than
  a folder holding it, every folder's bytes stay the sum over its contents
  when a free path is added (and its descendants the count below it when the
  parent folders are already there), an addition gives one tree whatever
  folder value or copy it is made on, and additions at unrelated paths
  commute.
- `src/messages/instruction.rs` — the messages to the application and which
  operation each calls for.
- `src/input.rs`, `src/workers.rs` — what the input handler, the scanner and
  the loading animation decide at each step.
- `src/os/unix.rs` — whether the process runs as root.
- `app/` — the program: command line, directory walk, threads and channels.
