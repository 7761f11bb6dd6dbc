# Office Hold'em

Texas hold'em for one human against up to four bots, with the rules of the
game written in Verus and proved against their contracts.

- `src/` — the verified library:
  - `cards.rs`: cards, the deck, hand evaluation (the best five of any
    number of cards), hand descriptions and the explanation of a lost hand;
  - `pots.rs`: side pots at showdown;
  - `game.rs`: the betting state machine — dealing, blinds, actions,
    streets, the showdown and the tournament;
  - `table.rs`: the table screen's state — settings, the raise slider,
    chip stacks and the queue of chips and cards moving on the table;
  - `bots.rs`: bot styles and the size of a bot's raise;
  - `text.rs`: decimal numbers and joined text.
- `tests/` — tests of the library.
- `app/` — the desktop program (egui): drawing, input, the clock, and the
  bots' decisions, which weigh their odds in floating point.
