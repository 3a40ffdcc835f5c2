# neurogit

An interactive prompt for a Git repository that also talks to a Rust
language server (rust-analyzer): it shows the symbols of a file and the
references to a position, and can build a graph of the project's symbols
and calls, written out as Graphviz DOT and as Cypher statements.

## Layout

- `src/` — the library, verified with Verus:
  - `text.rs`: white space, trimming, words, prefixes, decimal numbers;
  - `json.rs`: the JSON values exchanged with the server, their lookups,
    their compact text, and the reading of a message body (`serde_json`);
  - `framing.rs`: `Content-Length` framing, the frame reader as a state
    machine, and the proof that framed bodies read back as written;
  - `rpc.rs`: requests, notifications and their parameters, the table of
    requests waiting for answers (ids 1, 2, 3, …), the dispatch of each
    body read, alerts, call-hierarchy steps;
  - `graph.rs`: the project graph, whose node ids stay unique;
  - `explorer.rs`: symbol ids, the depth-first visit of a file's symbols,
    and the links made from definitions and outgoing calls;
  - `export.rs`: the DOT and Cypher documents of a graph;
  - `command.rs`: what a typed line asks for, and what is shown of the
    server's answers;
  - `protocol.rs`: the shapes of the server's answers.
- `app/` — the program: the prompt loop, Git access, the server process
  and its byte streams, file access and printing.
- `tests/` — tests of the library on concrete values.
