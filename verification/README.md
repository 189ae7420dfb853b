# haste

A micro agent harness for fast inference, with its logic verified by Verus.

- `src/` is the library: the command language, the ledger and its renderer,
  the workspace tools, the plan state machine, the run loop, the stream reader,
  configs and mods, and what the screens show. Every function carries its
  contract; laws that relate several functions are public proof functions.
- `app/` is the program around it: files, processes, HTTP, threads, and the
  terminal. It performs what the library asks for and hands back what happened.
- `tests/` run the library from outside, whole runs among them.

The run loop (`session`) does no work itself. Each step takes in what happened
and says what has to happen next, so that every decision of a run can be read,
proved and tested without a model, a shell or a disk.
