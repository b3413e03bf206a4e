# buzz-agents

What agents cost, and where they left off.

`src/` is the verified library. Turn metrics are folded into one tally per agent
(`tally`), priced and ranked (`rollup`), named (`profile`, `names`), and shown as a
Markdown table (`display`, `markdown`) or as rows of a panel (`report`). Relay
events are read in `events` and asked for in `relay`, and `digest` is about posting
the table. `watermark` keeps where each
channel left off, `paths` looks at where that is stored, and `save` decides how it
is written. Modules that end in `_laws` hold what is proved of several functions
together.

An amount of dollars is carried as the bit pattern of a double: amounts are
compared in the library and added up and printed outside it.

`app/` is ordinary Rust around the library: the `usage` command, the panel and the
watermark file, with their network and disk access, JSON and floating point.

`tests/` runs the library with the crates that it calls.
