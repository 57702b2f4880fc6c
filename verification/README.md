# hnu_algo

Algorithms coursework as a verified Rust library: the functions under `src/` carry
`requires`/`ensures` contracts that Verus proves. A few calls into std and outside crates
(hash maps, `str::lines`, word segmentation by `jieba-rs`) stand behind small trusted
wrappers whose contracts are believed, not proved.

- `src/algorithms/` — searches (separator-free dictionaries, knapsack by backtracking,
  weighted vertex cover by branch and bound), divide and conquer (sorting, minimum and
  maximum), dynamic programming (knapsack, batch scheduling), shortest paths (Dijkstra,
  SPFA), Cantor expansion, sparse matrices, the numbering of increasing words, word
  frequencies of a text (cut into words by `jieba-rs`), and bounded multi-source shortest paths (`bmssp/`: keys, the block structure, graphs of
  bounded degree and the recursion).
- `src/ds/` — a binary indexed tree and a small priority queue.
- `src/dataset/` — the text formats of the data sets, read from bytes.
- `src/utils/` — helpers on edge lists.
- `tests/` — tests of the library.
- `app/` — what stays outside the verified library: reading files, the programs,
  floating-point PageRank and interval cover, and the logarithms that choose the
  parameters of the shortest-path recursion.
