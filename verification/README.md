# wperf

Thread-level wait-for-graph profiling: scheduler events become a graph of which
thread waited for which, and the cascade attributes each wait to the threads
that caused it.

The library under `src/` is verified with Verus; `app/` is the program around it
(command line, files, processes, signals). Recording needs kernel programs, which
are part of builds with the feature `bpf`; other builds say so and do not record.

| module | what it holds |
| --- | --- |
| `format` | the `.wperf` file format: events, headers, writer, reader, the compact layout, and what reading gives back of what was written |
| `correlate`, `pipeline` | from events to a wait-for graph |
| `graph` | the graph, its topology, the sweep line |
| `cascade` | attribution of waits, checks on the result, laws |
| `scc`, `critical_path` | components, condensation, node weights, knots, the heaviest path |
| `output`, `report`, `dot` | what is reported, and as what |
| `transport`, `probe`, `record`, `capture` | decisions on the way from the kernel to a file |
| `sorting`, `text` | merge sort over ranked values; numbers and words |

Graph algorithms come from petgraph, through the trusted functions in
`graph/topology.rs`; nothing else in the library is trusted. Of streams other
than `MemStream` it is expected that they do what `ByteStream` says.
