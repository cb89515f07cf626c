# tool_stubs

A verified library for bundles of executable tool stubs.

A bundle takes the commands that a configuration or a manifest declares, and
keeps a small executable stub for each of them in one directory. The library
decides what a sync, a status report, an upgrade or a removal of a bundle does.
It is written in Verus: every function states what it returns, and the proofs
are checked with the code.

What is proved of whole syncs, beyond the single functions:

- Without `--force`, a sync replaces or removes only what its bundle safely
  owns, and a removal deletes only what is as the bundle wrote it. Whether
  forced or not, recorded commands that another bundle has taken over stay.
- A sync changes only files that stand directly in the directory of its bundle.
- Wherever a sync is interrupted, a recovery leaves either everything as it was
  before or everything as the complete sync has it. A recovery can itself be
  interrupted and repeated.
- A recovery never removes or replaces a file that the sync did not install.
  Where a change cannot be undone, the transaction and the originals are kept,
  and everything else is still brought back.
- Right after a complete sync every command is current, another sync changes
  nothing, and the bundle can be removed without force.
- A complete sync tracks the desired commands, ends the tracking of those that it
  removes, and changes no other tracking.
- Removing a bundle after an interrupted sync does what it would have done had
  the sync never begun.

## Layout

- `src/` is the library. It touches no files: callers hand it what they found
  and carry out the steps that it gives back.
- `app/` holds the commands around it: arguments, files, locks and output.
- `tests/` runs the library on concrete values, partly against a disk in memory.

Paths are text, and are read as Unix paths. How a tool request splits into a
tool and a version, whether the contents of a stub are valid, and how a path is
shown in a message are questions that callers answer.
