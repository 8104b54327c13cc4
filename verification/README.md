# ReasonMesh

A distributed reasoning fabric whose core is proved correct with Verus.

Workers search a partitioned space with a CDCL solver, exchange what they
learn over a bus, and report to a coordinator. A result is only as good as its
evidence: models are checked against the clauses as they were given, and
refutations are checked step by step by a verifier that shares nothing with
the solver.

## Layout

- `src/akx`: literals, knowledge objects, filters, and the import gate that
  decides which knowledge a worker may use in its context.
- `src/sat`: the CDCL solver, the DIMACS reader, the reasoner around the
  solver, and the proof that its log is accepted by the verifier.
- `src/certify`: the DRUP verifier, the model evaluator and the proof file
  format.
- `src/scheduler`, `src/orchestrator`: the partition tree with coverage
  certificates, leases, the write-ahead log and the standby that replays it.
- `src/bus`: the in-process bus, the scope hierarchy and the frames of the
  network transport.
- `src/coordinator`, `src/node`: jobs, tasks and leases of the HTTP service,
  and the decisions of a worker node.
- `src/ir`: bit-vectors, circuits and the interned term DAG.
- `src/api`: expressions, SMT-LIB scripts, models, solver sessions and pools.
- `src/bench`, `src/cli`: benchmark manifests and scores, and the reports of
  the command line.
- `app`: the program around the library: files, sockets, threads, HTTP, and
  the calls into the theory solver.
- `tests`: the tests of the library.

Utilities are numbers of billionths, and times are nanoseconds, so that every
rule about them can be stated exactly.
