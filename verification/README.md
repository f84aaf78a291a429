# msg

Reading and sending iMessages from the command line, with the parts that decide
anything verified by Verus.

- `src/` is the library. It reads no file and opens no socket: it makes the
  queries that are put to the Messages database, makes people, conversations,
  transcripts and search results out of the rows that come back, renders them,
  and decides what crosses the socket between `msg` and its daemon `msgd`. Every
  public function states what it returns; what holds of several together is a
  public proof function beside them.
- `app/` is the program around it: arguments, SQLite, the socket, launchd,
  `osascript`, and the JSON shapes.
- `tests/` runs the library, most of it over an in-memory database with the
  tables Messages keeps.

Dates are milliseconds since 1970 throughout. What a terminal shows goes by a
clock reading: the local date and time as if it were UTC.

What is believed rather than proved is marked `external_body` or
`assume_specification`, and says above it what is claimed: a few functions of
`std`, and calls into `chrono`, `serde_json`, `base64` and `unicode-width`.
