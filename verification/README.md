# smg

The verified core of a model gateway: the rules by which nodes of a mesh
replicate state, by which the output of models is read, and by which requests are
admitted and routed.

| Module | What it decides |
| --- | --- |
| `crdt_kv` | replicated maps: operations and their log, last-writer-wins and rate-limit engines, the routing map, acknowledgements |
| `kv`, `transport` | the store of a node, and how values and operations travel in chunks and batches |
| `gossip_service` | membership, and both directions of a stream between two nodes |
| `tool_parser` | tool calls in the Step-3.5 format, complete and streamed |
| `reasoning_parser` | telling reasoning from answers |
| `tokenizer_bundle` | collecting bundles, checking fingerprints and archives |
| `annotations`, `inventory` | hints on tools, and their names |
| `inflight`, `least_load` | admission of media, and the choice of a worker |
| `key_table`, `text`, `time` | what the others share |

`src/` is verified with Verus. Every public function states what it returns and
changes; what relates several functions is stated by the proof functions whose
names begin with `law_`. What is taken from other crates and from the standard
library without proof stands behind functions marked `external_body`, each with
a comment on what is claimed of the outside function.

`app/` holds the tasks, timers, channels, files and floating point around the
library. `tests/` runs the library together with the crates that it calls.
