# ai-imessage

A local index of Apple Messages, for search in the terminal and for MCP
clients. Everything stays on the machine: the Messages database is read and
never written, the index is a private SQLite file, and text is sent to a remote
embedding endpoint only where the configuration allows it.

The logic is a Verus library under `src/`: what each function returns or
changes is stated in its contract and proved. `app/` is the program around it:
arguments, files, SQLite, the network and launchd.

| Where | What |
| --- | --- |
| `typedstream`, `appledate`, `extract`, `model` | messages out of the source database |
| `handles`, `contacts` | phone numbers and addresses, and the names they belong to |
| `chunk`, `tables`, `index`, `etl` | conversations cut into chunks, the tables of the index, and the sync that keeps them up to date |
| `embed`, `search`, `retrieve`, `browse` | vectors, keyword and vector search, their fusion, and what is read without a search |
| `mcp`, `http`, `tailnet`, `service`, `cli`, `doctor`, `dryrun`, `config`, `paths` | the protocol, its HTTP side, and the commands |
| `text`, `numeric`, `time`, `digest`, `json`, `lists`, `order` | what the rest is written with |
| `laws`, `resync`, `recut`, `reuse`, `vectors`, `filling`, `readback` | what holds across functions: of a sync, of a second one, of the chunks it leaves and the rows it keeps, of the stored vectors, of a whole embedding run, and of an agent's description that is read back |

The index works on rows in memory and writes down every change in a journal;
`app/store.rs` loads the rows and replays the journal in one transaction.
Floating-point numbers do not enter the library: it holds the bits of a vector
and the order of its similarities, and `app/similarity.rs` computes them.
The embedded model runs on an ONNX runtime library that is loaded on first use.
Full-text matching is SQLite's: the library makes the query and ranks, labels
and cuts what comes back.
