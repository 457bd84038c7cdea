# rstl

Containers and algorithms with machine-checked contracts, written in Verus.

## Layout

- `src/` — the verified library. Every public function states in `requires` /
  `ensures` what it does, over spec-level models (`Seq`, `Map`, `Multiset`,
  `int`), and Verus proves the code against it.
  - `ring`, `circular_stack`, `circular_queue` — fixed-capacity ring buffers
    (stack and double-ended queue) that keep the most recent items.
  - `history` — an undo/redo history with a movable cursor.
  - `priority_queue` — a binary min-heap; `linked_deque` — a deque.
  - `trie` — a prefix tree over keys mapped to small alphabets.
  - `manacher` — palindromic radii.
  - `flow`, `dinic`, `isap`, `mcmf` — maximum flow (Dinic, ISAP) and
    minimum-cost maximum flow by successive shortest paths, with the
    max-flow/min-cut facts they rest on. Every result is proved to be a
    maximum flow whose value is the least cut capacity.
  - `pricing` — reduced-cost optimality: node prices that leave no edge with
    remaining capacity a negative reduced cost certify that no flow of the
    same value costs less. The min-cost solver, with either strategy, is
    proved to return a flow of least cost whenever the network has no
    negative-cost cycle and `2 * n * n` times the largest absolute cost stays
    below `inf` (`mcmf_in_range`); two least-cost maximum flows agree in
    value and cost, so both strategies give the same result there.
  - `permutation`, `shuffle` — lexicographic permutation steps and
    Fisher–Yates shuffling.
  - `observable` — the decision core of an observable value with scheduled
    notifications.
  - `traits` — the shared interfaces of the containers and solvers.
- `tests/` — ordinary Rust tests of the library.
- `app/` — ordinary Rust around the library: the observable value and ticker,
  which hold boxed callbacks and drive the verified `NotifyState`.

## Laws

Besides each function's contract, the library states laws as public proof
functions, for example:

- `lemma_max_flow`, `lemma_reach_cut` — a valid flow with a closed node set
  separating source from sink is maximum, and its value is the capacity of
  the cut, which no other source–sink cut undercuts;
- `lemma_prices_least_cost`, `lemma_least_cost_unique`,
  `lemma_strategies_agree` — feasible prices make a flow cheapest among flows
  of its value, two cheapest maximum flows agree in value and cost, and so
  two solvers on one network report the same totals whatever their strategy;
- `lemma_next_is_least_greater`, `lemma_indices_reach_all` — a permutation
  step goes to the least greater arrangement, and stepping from the ascending
  arrangement reaches every arrangement;
- `lemma_arrangements_count`, `lemma_indices_count` — `n` distinct items have
  `n!` arrangements, and the index cursor steps through exactly that many
  before it finds no next one;
- `lemma_same_answers_same_shuffle` — two random sources that give the same
  answers give the same shuffle;
- `lemma_insert_then_get`, `lemma_insert_then_remove` — what a trie gives back
  after an insertion.
