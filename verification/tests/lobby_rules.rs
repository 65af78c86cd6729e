use quantum_mafia::{Command, Lobby, LobbyError, SetClientState};

fn s(x: &str) -> String {
    x.to_string()
}

fn connect(lobby: &mut Lobby, token: usize, name: &str) -> usize {
    lobby.open(token);
    let id = lobby.player_id(token).unwrap();
    lobby.apply(id, Command::SetName(s(name))).unwrap();
    id
}

#[test]
fn opened_connection_is_named_noname() {
    let mut lobby = Lobby::new();
    assert_eq!(lobby.player_id(7), None);
    lobby.open(7);
    let id = lobby.player_id(7).unwrap();
    assert_eq!(lobby.name_of(id), "Noname");
    assert_eq!(lobby.token_of(id), 7);
    assert_eq!(
        lobby.client_state(id),
        SetClientState::WaitingRoom {
            nickname: s("Noname"),
            waiting_room_people: vec![],
            open_games: vec![],
        }
    );
}

#[test]
fn naming_enters_the_waiting_room() {
    let mut lobby = Lobby::new();
    lobby.open(1);
    lobby.open(2);
    let a = lobby.player_id(1).unwrap();
    let b = lobby.player_id(2).unwrap();
    assert_eq!(lobby.apply(a, Command::SetName(s("alice"))), Ok(vec![a]));
    assert_eq!(lobby.apply(b, Command::SetName(s("bob"))), Ok(vec![a, b]));
    // Renaming keeps one's place.
    assert_eq!(lobby.apply(a, Command::SetName(s("ann"))), Ok(vec![a, b]));
    assert_eq!(
        lobby.client_state(b),
        SetClientState::WaitingRoom {
            nickname: s("bob"),
            waiting_room_people: vec![s("ann"), s("bob")],
            open_games: vec![],
        }
    );
}

#[test]
fn creating_a_game_opens_it_to_the_waiting_room() {
    let mut lobby = Lobby::new();
    let a = connect(&mut lobby, 1, "alice");
    let b = connect(&mut lobby, 2, "bob");
    assert_eq!(lobby.apply(a, Command::CreateGame(s("night club"))), Ok(vec![b, a]));
    assert_eq!(
        lobby.client_state(a),
        SetClientState::UnstartedGame {
            nickname: s("alice"),
            game_name: s("night club"),
            people_in_game: vec![s("alice")],
        }
    );
    assert_eq!(
        lobby.client_state(b),
        SetClientState::WaitingRoom {
            nickname: s("bob"),
            waiting_room_people: vec![s("bob")],
            open_games: vec![(0, s("night club"), vec![s("alice")])],
        }
    );
}

#[test]
fn entering_a_missing_game_is_refused() {
    let mut lobby = Lobby::new();
    let a = connect(&mut lobby, 1, "alice");
    assert_eq!(lobby.apply(a, Command::EnterGame(5)), Err(LobbyError::InvalidReference(5)));
    assert_eq!(
        lobby.client_state(a),
        SetClientState::WaitingRoom {
            nickname: s("alice"),
            waiting_room_people: vec![s("alice")],
            open_games: vec![],
        }
    );
}

#[test]
fn entering_a_game_tells_the_player_lobby_and_game() {
    let mut lobby = Lobby::new();
    let a = connect(&mut lobby, 1, "alice");
    let b = connect(&mut lobby, 2, "bob");
    let c = connect(&mut lobby, 3, "carol");
    lobby.apply(a, Command::CreateGame(s("first"))).unwrap();
    assert_eq!(lobby.apply(b, Command::EnterGame(0)), Ok(vec![b, c, a, b]));
    assert_eq!(
        lobby.client_state(b),
        SetClientState::UnstartedGame {
            nickname: s("bob"),
            game_name: s("first"),
            people_in_game: vec![s("alice"), s("bob")],
        }
    );
    assert_eq!(
        lobby.client_state(c),
        SetClientState::WaitingRoom {
            nickname: s("carol"),
            waiting_room_people: vec![s("carol")],
            open_games: vec![(0, s("first"), vec![s("alice"), s("bob")])],
        }
    );
}

#[test]
fn games_are_numbered_in_order() {
    let mut lobby = Lobby::new();
    let a = connect(&mut lobby, 1, "alice");
    let b = connect(&mut lobby, 2, "bob");
    let c = connect(&mut lobby, 3, "carol");
    lobby.apply(a, Command::CreateGame(s("one"))).unwrap();
    lobby.apply(b, Command::CreateGame(s("two"))).unwrap();
    assert_eq!(
        lobby.client_state(c),
        SetClientState::WaitingRoom {
            nickname: s("carol"),
            waiting_room_people: vec![s("carol")],
            open_games: vec![(0, s("one"), vec![s("alice")]), (1, s("two"), vec![s("bob")])],
        }
    );
}

#[test]
fn leaving_a_game_on_close() {
    let mut lobby = Lobby::new();
    let a = connect(&mut lobby, 1, "alice");
    let b = connect(&mut lobby, 2, "bob");
    lobby.apply(a, Command::CreateGame(s("g"))).unwrap();
    lobby.apply(b, Command::EnterGame(0)).unwrap();
    assert!(lobby.can_leave(b));
    assert_eq!(lobby.leave_game(b), vec![a]);
    assert!(lobby.client_state_ready(a));
    assert_eq!(
        lobby.client_state(a),
        SetClientState::UnstartedGame {
            nickname: s("alice"),
            game_name: s("g"),
            people_in_game: vec![s("alice")],
        }
    );
    lobby.disconnect(b);
    assert_eq!(lobby.player_id(2), None);
    // The last player of a game cannot leave it.
    assert!(!lobby.can_leave(a));
}

#[test]
fn closing_without_a_game_leaves_the_waiting_room() {
    let mut lobby = Lobby::new();
    let a = connect(&mut lobby, 1, "alice");
    let b = connect(&mut lobby, 2, "bob");
    assert!(lobby.can_leave(a));
    assert_eq!(lobby.leave_game(a), Vec::<usize>::new());
    lobby.disconnect(a);
    assert_eq!(
        lobby.client_state(b),
        SetClientState::WaitingRoom {
            nickname: s("bob"),
            waiting_room_people: vec![s("bob")],
            open_games: vec![],
        }
    );
    // A token can be used again by a new connection.
    lobby.open(1);
    let again = lobby.player_id(1).unwrap();
    assert_ne!(again, a);
    assert_eq!(lobby.name_of(again), "Noname");
}

#[test]
fn a_game_listing_a_closed_player_cannot_be_shown() {
    let mut lobby = Lobby::new();
    let a = connect(&mut lobby, 1, "alice");
    let b = connect(&mut lobby, 2, "bob");
    let c = connect(&mut lobby, 3, "carol");
    let d = connect(&mut lobby, 4, "dave");
    lobby.apply(a, Command::CreateGame(s("one"))).unwrap();
    lobby.apply(b, Command::CreateGame(s("two"))).unwrap();
    // Carol joins game one, then game two, and leaves: game one still lists her.
    lobby.apply(c, Command::EnterGame(0)).unwrap();
    lobby.apply(c, Command::EnterGame(1)).unwrap();
    assert!(lobby.can_leave(c));
    assert_eq!(lobby.leave_game(c), vec![b]);
    lobby.disconnect(c);
    assert!(!lobby.client_state_ready(a));
    assert!(!lobby.client_state_ready(d));
    assert!(lobby.client_state_ready(b));
    // Nor can a game list a closed player where one leaving looks for oneself.
    lobby.apply(d, Command::EnterGame(0)).unwrap();
    assert!(!lobby.can_leave(d));
}
