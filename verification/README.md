# card_game

A card game for an even number of players (4 to 48) who each get a stack of
cards from a shuffled 48-card deck and play rounds until someone plays their
last card. Each round is either *normal* (players take turns from a rotating
starting seat) or *rustic* (players race; the first earns a point, the last
loses five and sits out the next round). The highest card of a round shares
10 points among the players who hold it.

Layout:

- `src/` — the verified library (Verus):
  - `game` — cards, the deck, building, shuffling and dealing it;
  - `player` — what a player puts on the table and how it reaches the host;
  - `scorer` — the integer part of scoring a round;
  - `host` — the host's state between rounds: turn order, scoring, who sits out;
  - `validator` — checking the command line.
- `app/` — the program: threads, barriers and channels that run the game,
  the log file, and the floating-point scores of the standalone scorer.
- `tests/` — tests of the library.
