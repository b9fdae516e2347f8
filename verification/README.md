# stalepid

Finds process-ID files whose process is gone, and decides which of them to remove.

- `src/` is the library, verified with Verus. `daemon`, `decimal`, `quoted`, `pid_proc` and
  `text` read what people and processes write: process names like `daemon: sshd[7]`, numbers,
  quoted strings, and descriptions like `/run/a.pid=sshd` or `{/run/a.pid,sshd}`. `staleness`
  says when a process-ID file is stale and what becomes of it. `sources` picks and orders
  configuration files, `logging` decides where log messages go. `system` is the boundary to
  the `sysinfo` crate: what it declares is believed, and so is what `quoted` says of std's
  `String::push`. Everything else is proved.
- `app/` is the command-line program around it: arguments, files, the log, and the tasks that
  look at one file each.
- `tests/` runs the library.

Each module states its laws as public proof functions, named `law_...`.
