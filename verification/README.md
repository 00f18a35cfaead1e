# srvaudit

A terminal audit dashboard for a remote Linux server: what is listening, what is
running, where the data is, what starts on its own. One SSH connection, one
read-only shell script.

- `src/` is the library, verified with Verus: the script and the framing of its
  output, the parsers, the findings, the reports, the state of the dashboard and
  what every key does to it. No function of it panics or overflows (but for
  reading the clock, which panics where the system time stands before 1970), and the
  `law_` functions state what holds of the library as a whole: a probe that was
  refused never reads as "none", a probe cannot forge a section boundary, a path
  survives the remote shell unchanged, every finding leads to the tab with its
  evidence.
- `app/` is the program around it: arguments, the `ssh` process, JSON files, the
  terminal.
- `tests/` runs the library on concrete values, and holds its arithmetic on bit
  patterns against the machine's.

What the library takes on trust is small and marked `external_body` or
`assume_specification`: upper and lower case of text, appending a character to a
string, and the clock.
