# hwgc_soft

A toolkit for studying heap tracing and near-memory garbage collection on
heap dumps taken from a JVM, written in Verus.

- `src/` is the verified library: object headers and the OpenJDK and
  bidirectional object models that lay a heap dump out in memory; the
  tracing loops (edge/node, slot/objref, distributed, shape cache) with the
  law that each marks exactly the objects reachable from the roots; the
  message analysis of a distributed tracer; depth, degree, shape and
  edge-chunk analyses of heap dumps; and the memory-system models used by
  the simulators (address mapping, DRAM banks, TLBs, data caches, the DIMM
  topologies and the link network, the ideal-utilization tracer).
- `tests/` runs the library on concrete heaps and caches.
- `app/` is the command-line program: argument parsing, reading the
  zstd-compressed protobuf heap dumps, timing and printing.
