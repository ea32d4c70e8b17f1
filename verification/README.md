# Process queue and canonisation worklist, verified with Verus

Layout:

- `src/process/hibou_process.rs`: the states kept during an exploration
  (`MemorizedState`, `NextToProcess`), the three-level priority queue
  (`ProcessQueue`, specified over `QueueLevels`), and the names of the
  analysis options (`to_string` methods, specified character by character).
  Proof functions state the laws of the queue: what an insertion adds, what
  `get_next` takes, first-in first-out at the back, that the low level is
  never filled, and that draining the queue gives every node once in serving
  order.
- `src/canonize/process.rs`: `CanonWorklist`, which decides the exploration
  that canonises a term in three phases (node numbering, known terms, finals),
  specified over `WorklistModel`, with its invariant (a type invariant) and
  laws, among them what a whole phase of the exploration achieves, that
  it ends, and that the whole canonisation is determined by its input.
- `tests/`: tests on concrete values.
- `app/`: the part that applies the rewriting rules, writes the Graphviz file
  and runs `dot`; the interaction terms and their rules come from the rest of
  the tool through the `CanonTerms` trait.
