//! Quantum Mafia: a game of Mafia played in several "subgames" at once.
//! Every subgame assigns each player a class; the same night and day actions are
//! applied to every subgame (`game`). The server's lobby, where players name themselves
//! and open or join games, is kept in `lobby`.

pub mod game;
pub mod lobby;

pub use game::{
    DayAction, DayActions, NightAction, NightActions, Person, PersonClass, QuantumMafia,
    QuantumMafiaError, SubGame,
};
pub use lobby::{Command, Game, GameState, Lobby, LobbyError, Player, SetClientState};
