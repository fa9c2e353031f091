# sheaf_automata

Sheaf-theoretic protocol verification: a protocol P is deadlock-free if and
only if H¹(Sh(States); L(P)) = 0.

The crate is written in Verus. `src/` is the verified library:

| Module     | Contents |
|------------|----------|
| `automata` | `Dfa`, `Nfa`, runs over words, the subset construction (numbered depth-first) and the proof that it keeps the language |
| `sheaf`    | `OpenSet` (meet, join, named point and pair sets), `Stalk`, `SheafSpace` (edges, nerve), the open cover of a constant sheaf |
| `protocol` | `AgentConfig`, `Protocol`, `TransitionRule`, the prebuilt protocols, the configuration space and open cover of a protocol sheaf |
| `cochain`  | the stalk dimensions and their total, the dimensions of C⁰ and C¹, and the sign pattern of the coboundary d⁰ |
| `laws`     | proof functions relating several operations |
| `splitmix` | the pseudo-random seeds used by ergodic consensus |
| `composition` | the cohomology dimensions of two composed protocols |
| `sorted`, `text` | sorted point lists and decimal rendering |

The crate root holds `DeadlockResult`, whose verdict is proved to be
"deadlock exactly when H¹ ≠ 0" for the dimension of H¹ it is given; that
dimension itself is computed over floating-point numbers in `app/`,
without proof.

`app/` is ordinary Rust around the library: everything that computes over
floating-point numbers (restriction maps, cohomology by elimination, cup
products, refinements, the sheaf Laplacian, ergodic consensus), the sheaves
that hold such maps, and serialisable copies of the library's types.

`tests/` exercises the library from outside.
