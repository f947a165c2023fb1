# lore

A memory for AI coding sessions: transcripts of agents, the repositories they work on and the
commits they make become one graph of sessions, turns, decisions, files, symbols and commits
that can be searched and asked.

The library under `src/` is verified with Verus. The program under `app/` does what touches the
outside: files, the database, git, the network, floating-point scores and the servers.

| module | what it holds |
| --- | --- |
| `model`, `attrs` | nodes, edges, provenance, sessions; content-addressed ids |
| `ingest`, `json` | transcripts to sessions |
| `redact`, `secrets` | secrets out of every text, and the proof that none is left |
| `decision`, `llm` | decisions by rule, and from the reply of a model |
| `coderepo`, `manifest`, `patterns`, `paths` | what is in a repository |
| `git`, `anchor` | commits, and which commit a session stands on |
| `records`, `store`, `recovery`, `wal` | what is written, replayed and recovered |
| `graph`, `netgraph` | the graph and its neighbourhoods |
| `embed`, `index`, `hnsw` | vectors: token counts, exact and approximate search |
| `bm25`, `board`, `rank`, `ask` | recall: tasks, scores, redirection, evidence |
| `api`, `mcp`, `ui` | what the servers answer |
| `text`, `sorted`, `decimal`, `digest` | texts, sets, numbers, digests |

Calls into other crates stand in functions marked `external_body`, next to a statement of what
is taken from them. Laws of the library are public proof functions, at the end of the module
that they speak of.
