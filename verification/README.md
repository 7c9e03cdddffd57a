# PocketDuel

A Texas Hold'em preflop equity calculator. Two hands are dealt every one of
the C(48,5) = 1,712,304 boards left once their four hole cards are out, and
the wins, losses and ties are counted exactly. A batch mode computes all
14,365 heads-up matchups of the 169 canonical preflop hand types and writes
one JSON file per matchup.

The library is written in Verus and proved against its contracts.

## Layout

| Path | Contents |
|------|----------|
| `src/card.rs` | Cards, their text form, and hand parsing: concrete hands (`AhKh`, `Ah Kh`) and shorthand (`AA`, `AKs`, `KQo`) resolved to the lowest free suits. |
| `src/eval.rs` | The five- and seven-card evaluators and the search over the 21 five-card hands of seven cards. A score packs the category and five tiebreakers into a `u64`, so hands compare as integers. |
| `src/best_hand.rs` | Each five of seven cards scores at most the seven-card score. |
| `src/trim.rs` | Some five of the seven score exactly the seven-card score, so the direct evaluator and the search agree. |
| `src/symmetry.rs` | Scores depend neither on the order of the cards nor on which suit is which. |
| `src/mirror.rs` | Renaming the suits of both hands changes no tally: the count over positions of the deck is a count over sets of cards. |
| `src/sim.rs` | The exhaustive enumeration of boards, with the count of boards and the symmetry of swapping hands. |
| `src/everything.rs` | The 169 hand types, matchup files and their names, the order of the batch run and its tallies. |
| `src/text.rs` | Small string helpers. |
| `app/main.rs` | The command line: argument parsing, file I/O, JSON output and percentages. |
| `tests/` | Tests of the library on concrete hands. |

## Usage

```bash
pocketduel --hand1 AA --hand2 KK
pocketduel --hand1 AhKh --hand2 "Qc Qd"
pocketduel --everything --output-dir ./equity_data
```
