# ccd

Correcting `cd`: typo- and abbreviation-tolerant directory jumping that learns
from your shell history (`cd Dwn` goes to `~/Downloads`).

The logic is a Verus library, `src/`, whose functions carry exact contracts:

- `matcher`: Optimal String Alignment distance, with its laws (symmetry,
  zero exactly for equal strings, length bounds, one edit for an insertion,
  deletion, substitution or adjacent transposition), and greedy subsequence
  matching, proved to succeed exactly on subsequences.
- `history`: recognising `cd` commands, lexing their first shell word, and
  reading zsh, bash and fish history into numbered `cd` events.
- `seeding`: expanding `~`/`$HOME` arguments, the cross-reference and
  home-directory index, and the plan for resolving a history argument.
- `paths`: base names, path components, and the direct-child relation.
- `store`: the database's TSV rows (read back exactly as written), their
  sorting, the database location, and the clock.
- `cli`: subcommand selection and flag parsing.
- `text`, `order`: character-level helpers and lexicographic sorting.

`app/` is the command-line program around it: file and directory access,
locking, the environment, and the floating-point scoring and ranking.
`tests/` exercises the library.
