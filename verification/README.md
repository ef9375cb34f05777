# chesszero

The logic of a small chess engine project, as a Verus library: position encoding for
a sequence model, hand-written evaluation, alpha-beta search, the dialogue with a UCI
teacher engine, and the generation of labelled training positions.

| module | what it holds |
| --- | --- |
| `chess` | colours, pieces, squares, bitboards and boards |
| `rules` | positions, moves and the rules of chess, which the `shakmaty` crate supplies |
| `encoding`, `vocab` | token prefix, policy indices and the vocabulary |
| `features`, `motifs`, `trace` | what a position is described by, and the trace that describes it |
| `score`, `eval`, `symmetry` | tapered scores, the evaluation and its colour symmetry |
| `ordering`, `alphabeta` | move ordering and the search |
| `teacher` | what is said to a UCI engine and how its answers are read |
| `seeds`, `records`, `datagen` | seeds, record files and the decisions of a worker |
| `nn` | the attention mask and the configuration stored with a network's weights |
| `text`, `sums` | text, numbers in decimal, and sums over squares |

Properties that relate several functions are public proof functions whose names begin
with `law_`. Calls into other crates go through wrappers whose doc comments say what is
taken on trust.

`app/` is the program around the library: arguments, threads, files, the engine process,
and everything in floating point (training targets and the network itself).
