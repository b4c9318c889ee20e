# spin_tracker_op

Verified core of a Spin & Go hand-history tracker, written in Verus: Verus proves every
function in `src/`, and the public ones carry `requires` / `ensures` contracts that state
what they compute (all but the clock reading `now`, of which nothing can be stated).

## Layout

- `src/model.rs` — cards (`rank * 4 + suit`), actions and their kinds.
- `src/eval.rs` — seven-card hand evaluator on per-suit rank masks; its value is stated
  as a spec function of the cards, with laws (order and repetition of the cards do not
  matter; pairs, trips and quads are the ranks held in two, three, four suits; relabelling
  the suits changes nothing; its category is stated on the cards).
- `src/eval_five.rs` — the category of five to seven different cards is that of their best
  five cards: no five make a better one, some five make the same one.
- `src/eval_best.rs` — the same of the whole strength, tie-breakers included: the value of
  five to seven different cards is the largest value of five of them.
- `src/text.rs` — character-level helpers used by the readers (trimming, searching).
- `src/parser/` — format detection and the readers of the supported rooms: dates (with
  the Paris time-zone rule), amounts as exact decimals, text decoding with a Latin-1
  fallback; whole hands and tournament summaries of Winamax (`expresso`, `summaries`),
  Betclic (`betclic_hand`) and PokerStars / Unibet (`stars_hand`, `summaries`), each stated
  as a spec function of the text; iPoker XML files (`ipoker_file`), whose document is
  parsed by `roxmltree` behind one trusted wrapper and then read as a list of nodes.
- `src/import.rs` — the import's decisions: failed files, tournaments that are not Spins,
  new hands and duplicates, incomplete tournaments that a complete copy replaces, and the
  room of each tournament.
- `src/store.rs` — the store's order: entries sorted by their keys (start time or
  tournament and time, then id in string order; a stable sort), the position of a hand's
  tournament and the hands of each tournament; the merge of two records of a tournament.
- `src/analysis.rs`, `src/commands.rs` — positions, scenarios, the shape of a hand (folds,
  flops seen, showdown, all-in adjustment), hand classes, the hero's line of play.
- `src/stats/` — calendar (day numbers and dates, with the round-trip law), period keys of
  the result tables, time played with several tables open (union of intervals, stated as
  the size of the covered set), leak-finder decisions and postflop counters, the tally of
  decisions by spot, class and stack bucket (`tally`, with the law that tallying two hands
  in turn counts what each one counts), what each
  player did in a hand and the counters of each player by name (with the laws that the
  counters stay consistent: no rate above 100 %), and each opponent's counters against the
  hero over the tournaments (`versus`).
- `src/solver/` — the system clock (`now`), which players a heads-up postflop spot of a hand
  opposes (`spot`), the 13×13 grid of hand classes, card lists, made-hand and draw
  categories on a board and their counts over every flop or runout to come (`lab`),
  canonical flops, the dense index of class triples and the
  three-player finishing orders.
- `tests/` — tests run against the compiled library.
- `app/` — a small command-line front end: it reads files, folders and zip archives from
  disk, hands their text to the library and adds up the amounts of the hands it reads
  (floating-point chip sums, which the library leaves to its caller).

Floating-point parts of the tracker (EV, equities, solver strategies) are not part of the
verified library.
