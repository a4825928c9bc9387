# probing

The verified core of a performance and stability probe for distributed AI
training jobs, written in Verus.

`src/` is the library. Verus proves each function's contract, except for
the few small wrappers around `url`'s parser, `inferno`'s flame-graph
drawing, and std's clock, hasher, upper-casing and lossy UTF-8 decoding,
whose contracts are taken on trust and say so in their doc comments:

- `addressing`, `topology`, `storage`, `dpp`, `cluster_model`: where objects
  live in a cluster (rendezvous placement of a primary and replicas on
  distinct nodes), the topology view they are placed on, the in-memory entity
  store, the distributed store that saves to its primary and a quorum of
  replicas and reads back from the local store or else from the object's
  replicas, and the table of cluster members.
- `tracing`, `trace`: span tracing on a thread, with the invariants of its
  span stack.
- `stack_trie`, `ptree`, `monitor`, `pprof`: merging call stacks into the
  folded text of flame graphs and drawing them, process trees, following
  launched programs, and the sampling timer.
- `cli`, `inject`, `tcpstore`, `extension`, `error`, `plugins`,
  `engine_plugins`: the decisions of the command line, of loading the probe,
  of the key-value store protocol, and the registry of the query engine's
  extensions, which routes settings and calls to them in name order.
- `text`, `keyed`, `clock`: shared helpers.

`app/` is the program around it: argument parsing, `/proc`, sockets, HTTP,
threads, signals and floating-point checks. `tests/` exercises the library.
