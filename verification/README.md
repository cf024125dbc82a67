# zashboard

A small status server for the nfqws2 packet-rewriting daemon, with its logic in a
library that Verus verifies.

- `src/` is the library. `text` holds the byte-level splitting and number reading that the
  rest is specified in; `argument` reads one `--name=value` word; `desync` reads a
  `--lua-desync` value and its typed kind; `config` reads the configuration from the
  arguments; `process` reads a process's command line and decides each step of a scan of
  the process table; `status` builds the status report.
- `app/` is the server: the reads of `/proc`, the HTTP routes, and the JSON form of the
  report.
- `tests/` runs the library on concrete command lines.
