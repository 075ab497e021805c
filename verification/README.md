# rinha

Fraud scoring for card transactions: a load balancer in front of scoring
workers, each answering from a nearest-neighbour index of labelled
reference transactions.

`src/` is the verified library. Every function there carries a contract
that Verus proves, except four trusted wrappers, each around one std
function whose contract is taken on trust from std's documentation:
`sort_pairs` and `morton::sort_by_key` (slice sorting),
`select_nth_by_coordinate` (`select_nth_unstable_by_key`) and `utf8_str`
(`str::from_utf8`). The modules:

- `parser`, `dto`, `timestamp`, `numtext`, `consts`, `encoding`: the request
  JSON, its timestamps, numbers and the merchant-category risk table.
- `morton`, `kdtree`, `kdsearch`, `hnsw`, `hnsw_file`, `hnsw_build`,
  `memory`, `nearest`, `distance`: the index files (writers, readers and the
  laws that a reader gives back what a writer wrote) and their searches.
- `ivf`, `ivf_build`, `reference`, `reference_file`: the inverted-file
  builds (k-means, product quantization) and the references file.
- `service`, `controller`, `response`: the decision and the HTTP answer.
- `http`, `umbral`: the balancer's HTTP handling and the worker protocol,
  with the read loops written as step functions from state and event to the
  next state and action.

`app/` is the program around it: sockets, files, memory maps, the event
loops that perform what the step functions decide, the floating-point
vectorization, and the JSON loading.
