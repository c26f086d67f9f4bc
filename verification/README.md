# preflop

A verified model of preflop play at a six-seat no-limit hold'em table, and
the tooling that reads strategies out of trained preflop blueprints.

Chip unit: 1 chip = 0.5bb (SB posts 1, BB posts 2, a 100bb stack is 200).

## Layout

- `src/` — the library, checked by Verus:
  - `state`, `action`, `config`: the betting state machine (legal actions,
    what each action does, when betting is over) and the bet-size presets;
    `laws`: what every action keeps (chips, well-formedness, the minimum
    raise, who may limp or shove, whose turn it is).
  - `showdown`: fold wins and side pots; `positions`: who is in position
    postflop.
  - `blueprint`, `codec`, `roundtrip`: the blueprint table and its binary
    file format, with save/load proved to read back what was written.
  - `tree`: every decision node of the game tree in depth-first order, with
    a proof that the walk ends and that each node's history leads back to it.
  - `lines`, `charts`, `chart_laws`, `matchups`, `spots`: the lines walked to
    chart spots and heads-up matchups, and the proof that their histories
    are the blueprint keys of their states.
  - `solve_setup`: how the inputs of a postflop solve or a batch of them
    are read: street names, bet and raise sizes per depth, the slice of a
    batch that runs and the file each result goes to.
  - `tax_mode`: the names of the position-tax rules a fixed-strategy
    trainer can be told to use.
  - `labels`, `pushfold`, `filename`, `naming`, `sizes`, `fraction`, `text`:
    names, labels, file names, bet-size lists, fractions and decimals.
- `tests/` — tests of the library.
- `app/` — the command-line tool: reads blueprint files and writes charts,
  matchups and game-tree spots as JSON.
