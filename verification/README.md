# poke_mcts

Monte Carlo tree search for battles in which both sides choose at the same time, and the bump
allocators that its tree lies in. The library is written and verified in Verus.

- `src/mcts.rs`: the search of a single worker.
- `src/mcts_threaded.rs`: the search of several workers in one tree, with virtual losses.
- `src/ledger.rs`: the virtual losses in a tree while workers come and go in any order, and how
  often its root and the choices there have been visited once they are back.
- `src/walk.rs`, `src/choice.rs`: what both searches share: paths, options, rollouts, sampling.
- `src/tree.rs`, `src/child_map.rs`: the tree, its memory, and the map from nodes to children.
- `src/single.rs`: single-precision numbers by their bit patterns, and how they compare.
- `src/engine.rs`: what the search asks of a battle engine and of floating-point arithmetic.
- `src/perf/`: arenas over reserved address space (`virt_arena`), over one block
  (`concurrent_arena`) and over a list of chunks (`chain_arena`); blocks of options
  (`move_options`); a bit set of statuses (`bit_set`).
- `app/`: floating-point formulas, memory from the operating system, and threads.

A battle engine implements `engine::Battle`. The methods carry no contracts: what the search
guarantees, it guarantees of whatever the engine returned. Where taking instructions back undoes
them, a search ends in the state in which it started.
