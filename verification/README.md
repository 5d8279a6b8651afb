# mucalc

Local solving of systems of fixpoint equations over a lattice with a basis,
seen as parity games whose positions are pairs of a basis element and a
variable, together with the front ends that produce such systems:

- `aut`: labelled transition systems in the Aldebaran (`.aut`) format, read
  and written;
- `mucalc`: mu-calculus formulas, their parser and their conversion into
  equations over the states of a transition system;
- `parity`: parity games in the PGSolver format and their equations;
- `bisimilarity`: strong bisimilarity of two transition systems as one
  greatest fixpoint over pairs of states;
- `solver`: equations, formulas and their composition, the moves of both
  players, the explored game with its strategies and play profiles, and the
  steps of local strategy improvement;
- `new_solver`: a parity game solver kept with a strategy of player 0 and
  its inverse, to which nodes and edges can be added and removed;
- `text` and `index_set`: decimal numbers and text handling, and the
  insertion-ordered sets of indices that the games keep.

Everything under `src/` is verified with Verus. Public functions state in
their contracts what they return or change, as far as their doc comments say
(the strategy solver's valuation and solving rounds are not part of the
library; the simplification of the moves of player 0 leaves them as they are
unless a position is decided, and otherwise starts them over from the first
clause of the simplified formula, whose truth value and positions it states,
not how its clauses relate one by one to the old ones), and
the laws of the library (what the readers
guarantee of what they return, the orders on play profiles, how the
conversions number their equations and why the systems they produce can be
composed) are public proof functions.

`app/` holds the command line tools (`mucalc`, `parity`, `bisimilarity`,
`rand-lts`), which read files, check what the library asks of its callers
and call it, and the lazily exploring local solver, whose work rests on the
`Hash`, `Eq` and `Iterator` impls of the game it is given.
