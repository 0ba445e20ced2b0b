# gatefs (verified core)

The verified library behind gatefs, an observable filesystem protection shim.

- `src/calendar.rs`: proleptic Gregorian calendar; `civil_from_days` is proved to give the
  unique valid date that lies the given number of days after 1970-01-01.
- `src/text.rs`: decimal rendering with zero padding, as the log format writes numbers.
- `src/log.rs`: UTC microsecond timestamps and log lines, the commands of the serialized log
  writer and the decision it takes for each, the handle that sends requests to it (each call gives back, as ghost state, the exchange
  it went through), and laws on what a log reads back after resets, appends and removals.
- `src/overlay.rs`: ordered overlay collapse: a stable sort by order key followed by a fold,
  and `collapse_latest`, proved to return the effect of the latest entry.
- `src/runtime.rs`: runtime directory, socket, log and temporary mountpoint paths.

`app/lib.rs` holds what cannot be verified here: the log writer thread and its file I/O,
reading the environment, and creating private directories.
