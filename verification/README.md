# btelem

Viewer for btelem telemetry streams and `.btlm` capture files.

A btelem device sends a schema and then packets of binary entries. The viewer decodes
them, keeps their samples, and draws them as line plots, logic-analyser lanes, XY plots
and log tables. A session can be saved as a `.btlm` file and opened again, and a
workspace of plots can be saved as a layout.

## Layout

- `src/` is the library, verified with Verus. It decodes, stores, selects and decides;
  it does no I/O and draws nothing.
  - `wire`, `schema`, `value`: the wire format.
  - `store`, `mapper`: channels, samples and queries, and how entries become samples.
  - `capture`, `btlm`, `clock`: the ring of packets, its file format, file names.
  - `connection`, `ingest`: addresses, and the decisions of a session.
  - `panels`, `drops`, `markers`, `pointer`, `camera`, `keys`, ...: the state of the
    window and what the user's actions do to it.
  - `signals`, `lanes`, `logview`, `logpanel`: what the plots show.
  - `layout`, `layout_save`, `layout_apply`, `layout_laws`, `docks`: saved workspaces, and
    the dock of tabs that belongs to them.
- `tests/` holds the library's tests.
- `app/` is the program: window, sockets, files, and floating-point arithmetic.

Samples are IEEE doubles. The library holds them by their bit patterns and compares,
converts, divides and prints them with integer arithmetic; what adds or multiplies them
is in `app/`.

## Laws

Functions named `law_...` state what holds of the library as a whole: that a saved
capture reads back, that down-sampling keeps the envelope, that a saved layout restores
plots, markers and docks, that filters come before truncation, and others. Each is proved.
