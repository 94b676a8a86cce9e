# wordle

A terminal Wordle game whose rules are verified with Verus.

- `src/` — the verified library:
  - `text` — Unicode white space, `trim`, lowercasing;
  - `words` — legal words, word order, loading and checking the word lists;
  - `feedback` — the colours of a guess and the alphabet display;
  - `hard_mode` — the hard-mode rule;
  - `screen` — which words still fit the feedback of a round;
  - `game` — one round as a state machine;
  - `stats` — word usage, wins and attempts, the state-file records;
  - `answer` — choosing each round's answer, the seeded random order;
  - `options` — merging the command line with a config file.
- `app/` — the program: command line, files, terminal input and output.
- `tests/` — tests of the library.

Without `--final-set` and `--acceptable-set` the program stops: this build
carries no built-in word lists.
