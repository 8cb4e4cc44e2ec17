# openrouting

A PCB auto-router for Specctra DSN designs, written in Verus: it reads a
design, routes its nets on a grid with an A* search and rip-up-and-retry
passes, and writes the routes as a Specctra SES session.

## Layout

- `src/text.rs`: characters, string comparison and decimal text.
- `src/sexp.rs`: the S-expression reader, specified by a grammar over
  characters (`parse_text`).
- `src/number.rs`: numbers in DSN files, read as the integer part of their
  decimal value.
- `src/dsn.rs`: the DSN design model, its reader (`parse_dsn`, specified by
  `dsn_of`), and pad positions.
- `src/heap.rs`: a binary min-heap of search keys.
- `src/router.rs`: the routing grid, the search, the per-net and per-pass
  routing, the net order, the multi-pass strategy, and the laws of a
  routing result (`result_fits`, `unrouted_covers`, `result_in_frame`,
  and `routed_nets_joined`: the wires of each net that is not named
  unrouted are the runs of paths that join all its pads).
- `src/ses.rs`: the SES writer (`ses_text`, specified by `session_text`),
  with the laws that its parentheses balance and that a quoted token reads
  back as itself.
- `src/readback.rs`: the law that a session reads back, through the
  S-expression reader, as the tree it was written from.
- `app/main.rs`: the command line: reads the DSN file, computes pin offsets
  (trigonometry in floating point), routes, and writes the SES file.

Pin offsets are rotations of pin positions and use floating point, so the
library takes them as an argument (`PinOffsets`); the program computes them.
