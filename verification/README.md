# quantum-mafia

Mafia played in several subgames at once, with its lobby server.

- `src/game.rs`: the rules. A game holds subgames, each giving every player a class.
  A night gathers the mafiosi's, medic's, necromancer's and priest's choices in each
  subgame and resolves them; a day counts the lynch votes. The contracts state the outcome
  of each over spec functions (`night_outcome`, `day_outcome`), and the proof functions
  state the game's laws (no one returns to life, only the mafiosi's victim dies at night,
  the medic saves their choice).
- `src/lobby.rs`: the server's bookkeeping of connections, names, the waiting room and the
  games that wait to start, and what each client is shown.
- `app/`: the websocket server (the `ws` crate) and the JSON messages (serde), calling the
  lobby.
- `tests/`: scenarios for both.
