# spider_core

A Spider Solitaire engine whose rules and searches are proved with Verus.

- `src/card.rs` — a card is one byte, `(suit << 4) | rank`; `UNKNOWN` (0) stands
  for a card nobody has seen.
- `src/board.rs` — the board, its mathematical view `BoardState`, the rules
  (`moves`, `after`), `make`/`undo` with an undo record, dealing, and the
  canonical hash (columns are hashed and sorted, so a permutation of columns
  gives the same key).
- `src/setup.rs` — boards built from what a player sees (`from_visible`) or
  from every known card (`from_parts`), and the text dump (`render`).
- `src/search.rs` — the move tree stored as a parent array and the priority
  queue of the best-first searches.
- `src/solver.rs` — the weighted-A* solver with its depth-first fallback, and
  the pieces of the parallel portfolio that run inside the library.
- `src/dfs.rs` — a plain recursive depth-first solver.
- `src/advisor.rs`, `src/bfs.rs`, `src/deep.rs`, `src/simplify.rs` — the
  partial-information advisor: searches for short plans that turn unknown
  cards face up (`bfs.rs` holds the proof of the breadth-first one), and a
  simplifier that strips wasted motion from them.
- `src/rng.rs`, `src/text.rs` — the xorshift64* generator, decimal text.
- `app/` — the command line and the HTTP API (threads, sockets, JSON).

Every search returns only legal lines: each move is one the rules list at
that point, and what the result claims (a win, a reveal, the counts of an
advice) holds of the board the line ends on.

When a search reports that nothing is left to explore (the depth-first solver
without hitting its budget, a best-first worker whose open set ran dry), no
legal line wins from the start; when the breadth-first reveal search ends
inside its budget, no plan within its caps gains more than the one it returns
(and none gains at all when it returns nothing), provided no two boards reached share a hash:
the transposition tables key boards by hash, so that proviso is stated
explicitly.

Whether a search ends inside its budget is also stated over the board alone:
when the boards reachable from the start (for the breadth-first reveal
search, the board together with its run of reversible moves) fit in a set
small enough that trying `MOVES_BOUND` moves from each stays within the node
limit (`search_fits`, `bfs_fits`), the searches never run out of budget, so
their answers are exact: no win, no reveal, or the best reveal plan.
