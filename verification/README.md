# vyges-est

Parasitic estimation before detailed routing: which nets of a placed design get an RC network, the
network of each one, and the SPEF text that carries it to a static timer. The library is written in
Verus: every function states what it returns, and Verus proves it.

## Layout

| module | what it holds |
| --- | --- |
| `text`, `order`, `table`, `number`, `number_laws`, `value` | texts, stable sorting, a map walked in order, C's `%g`, doubles by bit pattern |
| `db` | the design as estimation reads it |
| `args`, `rc`, `layer_rc`, `wire_rc`, `rc_trace` | the wire RC per corner, `set_layer_rc` and `set_wire_rc`, and their trace |
| `placement` | which nets are estimated, their pins, drivers and Steiner trees, and the trace |
| `network`, `cuts`, `steiner`, `network_laws` | the RC network of a net: pi models, via chains, pins; and what holds of every network |
| `spef`, `corner` | the SPEF text of a net and of a corner |
| `job`, `session`, `report`, `cli`, `outcome_laws` | jobs, the steps of a run, its report, the command line, and how runs end |

`app/` is the program around the library: files, the design database, timing libraries, the Steiner
builder, and all that computes in floating point. The library carries real numbers by bit pattern
and says what each value is made of; the program computes it.

## What is trusted

Three calls are taken at their word, each beside a comment that says what is claimed of it:
`serde_json` reads a job (`job::parse_job`) and quotes a text (`report::quote`), and `flate2` unpacks
a timing library (`session::gunzip`). `String::push` of the standard library has its contract in
`text`.
