# gemsleuth

A solver for gem deduction puzzles (Mastermind): gems are drawn with
repetition into a hidden answer, and each guess is answered with the number of
gems right in kind and place and the number right in kind only. The library
holds the rules and the search, with their contracts proved by Verus; the
desktop program around it is ordinary Rust.

## Layout

- `src/` — the verified library.
  - `judge`, `model`, `solver`: the feedback rule, settings and records, the
    space of codes and candidate filtering.
  - `session`, `palette`: the state of a solving session, the record editor
    and the marks shown for a feedback.
  - `lookahead`: the minimax guarantee for small candidate sets, and the
    fixed sample of guesses used on spaces too large to search whole.
  - `policy`, `text`, `keymap`, `exchange`: policy texts, their parsing and
    independent replay, and the ordered maps they use.
  - `optimal`, `bound`, `realize`, `checkpoint`: the exact expected-submission
    optimizer, its lower bounds, the strategies it records, and its
    checkpoint format.
  - `symmetry`: renamings of colours and slots keep every feedback, so on
    the whole space one first guess per colour-count signature stands for
    all; this is what makes the search exact there.
- `tests/` — tests of the library.
- `app/` — the desktop program (egui), file access, threads, and the
  floating-point figures shown with a recommendation.

Policy files are read from `assets/` in the working directory when present;
without them the lookup is unavailable and the search falls back to the other
strategies.
