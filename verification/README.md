# home_mixer

The ranking, filtering and slate-selection logic of the For You home mixer,
verified with Verus.

- `src/` — the verified library:
  - `candidate` — the post candidate, its score order (IEEE-754 total order on
    the score's bits) and a stable sort by descending score;
  - `ordering` — stable descending orders of indices and moving items into an order;
  - `language` — the language lock filter and language matching;
  - `quota` — the in-network quota in the top of a ranked list;
  - `slate` — the order a post-to-slot assignment gives a slate;
  - `mmr` — the greedy reranking loop: best-scored post first, each next post
    named by a chooser, the posts never picked after them in score order;
  - `hungarian` — padding a profit matrix to a square;
  - `diversity` — semantic-id prefixes and their repeat counts in score order;
  - `similarity` — exact post similarity (same author, same original post,
    Jaccard similarity of semantic ids);
  - `signals` — the post-shape conditions of the score multipliers;
  - `debug` — the debug trace line of a served slate.
- `app/` — what computes in floating point or logs: the score multipliers, the
  rare-event score, the assignment solver, the MMR choice of the next post,
  slate selection and
  the debug side effect.
- `tests/` — tests of the library.
