use quantum_mafia::{
    DayActions, NightAction, NightActions, Person, PersonClass, QuantumMafia, QuantumMafiaError,
    SubGame,
};
use PersonClass::{Dead, Mafiosi, Medic, Necromancer, Priest, Villager, Zombie};

fn names(n: usize) -> Vec<String> {
    (0..n).map(|i| format!("player{}", i)).collect()
}

fn game_of(boards: Vec<Vec<PersonClass>>) -> QuantumMafia {
    let n = boards[0].len();
    let subgames = boards.into_iter().map(|b| SubGame::new(b).unwrap()).collect();
    QuantumMafia::new(names(n), subgames).unwrap()
}

fn boards(game: &QuantumMafia) -> Vec<Vec<PersonClass>> {
    game.subgames().iter().map(|s| s.people().clone()).collect()
}

fn night(targets: &[usize]) -> NightActions {
    NightActions(targets.iter().map(|&t| NightAction(Person(t))).collect())
}

fn day(accused: usize, votes: &[bool]) -> DayActions {
    DayActions { accused: Person(accused), votes: votes.to_vec() }
}

#[test]
fn subgame_new_keeps_classes() {
    let sg = SubGame::new(vec![Villager, Medic]).unwrap();
    assert_eq!(sg.people(), &vec![Villager, Medic]);
}

#[test]
fn new_game_starts_empty() {
    let game = game_of(vec![vec![Mafiosi, Villager], vec![Villager, Mafiosi]]);
    assert_eq!(boards(&game), vec![vec![Mafiosi, Villager], vec![Villager, Mafiosi]]);
    assert_eq!(game.player_names(), &names(2));
    assert!(!game.night_pending());
    assert_eq!(game.turn_count(), 0);
}

#[test]
fn new_game_rejects_subgame_of_wrong_size() {
    let subgames = vec![SubGame::new(vec![Mafiosi, Villager]).unwrap()];
    let res = QuantumMafia::new(names(3), subgames);
    assert_eq!(res.err(), Some(QuantumMafiaError::WrongGameSize));
}

#[test]
fn new_game_without_subgames_is_accepted() {
    let res = QuantumMafia::new(names(3), Vec::new());
    assert!(res.is_ok());
}

#[test]
fn night_action_needs_one_entry_per_subgame() {
    let game = game_of(vec![vec![Mafiosi, Villager], vec![Villager, Mafiosi]]);
    let short = game.new_night_action(vec![NightAction(Person(0))]);
    assert_eq!(short.err(), Some(QuantumMafiaError::WrongLengthAction));
    let ok = game.new_night_action(vec![NightAction(Person(0)), NightAction(Person(1))]).unwrap();
    assert_eq!(ok.0.len(), 2);
    assert_eq!(ok.0[1].0, Person(1));
}

#[test]
fn mafiosi_kill_unless_medic_protects() {
    let mut game = game_of(vec![
        vec![Mafiosi, Medic, Villager],
        vec![Villager, Mafiosi, Medic],
        vec![Mafiosi, Mafiosi, Villager],
    ]);
    assert_eq!(game.do_night(night(&[2, 2, 0])), Ok(()));
    assert_eq!(
        boards(&game),
        vec![
            vec![Mafiosi, Medic, Villager],
            vec![Villager, Mafiosi, Dead],
            vec![Mafiosi, Mafiosi, Dead],
        ]
    );
    assert!(game.night_pending());
}

#[test]
fn disagreeing_mafiosi_kill_no_one() {
    let mut game = game_of(vec![vec![Mafiosi, Mafiosi, Villager]; 3]);
    assert_eq!(game.do_night(night(&[2, 0, 1])), Ok(()));
    assert_eq!(boards(&game), vec![vec![Mafiosi, Mafiosi, Villager]; 3]);
}

#[test]
fn necromancer_raises_the_freshly_killed() {
    let mut game = game_of(vec![vec![Mafiosi, Necromancer, Villager]; 3]);
    assert_eq!(game.do_night(night(&[2, 2, 0])), Ok(()));
    assert_eq!(boards(&game), vec![vec![Mafiosi, Necromancer, Zombie]; 3]);
}

#[test]
fn necromancer_only_raises_the_dead() {
    let mut game = game_of(vec![vec![Villager, Necromancer, Dead]; 3]);
    assert_eq!(game.do_night(night(&[0, 0, 0])), Ok(()));
    assert_eq!(boards(&game), vec![vec![Villager, Necromancer, Dead]; 3]);
}

#[test]
fn priest_lays_a_zombie_to_rest() {
    let mut game = game_of(vec![vec![Mafiosi, Necromancer, Priest]; 3]);
    // The mafiosi kill the priest's target, the necromancer raises them, the priest undoes it.
    assert_eq!(game.do_night(night(&[0, 0, 0])), Ok(()));
    assert_eq!(boards(&game), vec![vec![Dead, Necromancer, Priest]; 3]);
}

#[test]
fn second_medic_stops_the_night_at_that_subgame() {
    let mut game = game_of(vec![
        vec![Mafiosi, Villager, Villager],
        vec![Medic, Medic, Mafiosi],
        vec![Mafiosi, Villager, Villager],
    ]);
    assert_eq!(game.do_night(night(&[1, 1, 1])), Err(QuantumMafiaError::BadPersonAssignments));
    assert_eq!(
        boards(&game),
        vec![
            vec![Mafiosi, Dead, Villager],
            vec![Medic, Medic, Mafiosi],
            vec![Mafiosi, Villager, Villager],
        ]
    );
    // The night is recorded all the same.
    assert!(game.night_pending());
}

#[test]
fn night_refused_with_wrong_length_or_twice() {
    let mut game = game_of(vec![vec![Mafiosi, Villager], vec![Villager, Mafiosi]]);
    assert_eq!(game.do_night(night(&[1])), Err(QuantumMafiaError::WrongLengthAction));
    assert!(!game.night_pending());
    assert_eq!(game.do_night(night(&[1, 0])), Ok(()));
    assert_eq!(game.do_night(night(&[1, 0])), Err(QuantumMafiaError::WrongTime));
    assert_eq!(boards(&game), vec![vec![Mafiosi, Dead], vec![Dead, Mafiosi]]);
}

#[test]
fn day_needs_a_night_first() {
    let mut game = game_of(vec![vec![Mafiosi, Villager], vec![Villager, Mafiosi]]);
    assert_eq!(game.do_day(day(0, &[true, true])), Err(QuantumMafiaError::WrongTime));
    assert_eq!(game.turn_count(), 0);
    assert_eq!(boards(&game), vec![vec![Mafiosi, Villager], vec![Villager, Mafiosi]]);
}

#[test]
fn day_refused_with_wrong_length() {
    let mut game = game_of(vec![vec![Mafiosi, Villager], vec![Villager, Mafiosi]]);
    game.do_night(night(&[0, 0])).unwrap();
    assert_eq!(game.do_day(day(0, &[true])), Err(QuantumMafiaError::WrongLengthAction));
    assert!(game.night_pending());
}

#[test]
fn majority_lynches_the_accused() {
    let mut game = game_of(vec![vec![Medic, Villager, Mafiosi]; 3]);
    // The medic saves the mafiosi's choice.
    game.do_night(night(&[1, 0, 1])).unwrap();
    assert_eq!(boards(&game), vec![vec![Medic, Villager, Mafiosi]; 3]);
    // Two living votes out of three players: more than half.
    assert_eq!(game.do_day(day(2, &[true, true, false])), Ok(()));
    assert_eq!(boards(&game), vec![vec![Medic, Villager, Dead]; 3]);
    assert!(!game.night_pending());
    assert_eq!(game.turn_count(), 1);
}

#[test]
fn half_is_not_enough() {
    let mut game = game_of(vec![vec![Villager, Villager, Mafiosi, Villager]; 4]);
    game.do_night(night(&[0, 0, 3, 0])).unwrap();
    assert_eq!(boards(&game), vec![vec![Villager, Villager, Mafiosi, Dead]; 4]);
    assert_eq!(game.do_day(day(2, &[true, true, false, false])), Ok(()));
    assert_eq!(boards(&game), vec![vec![Villager, Villager, Mafiosi, Dead]; 4]);
}

#[test]
fn dead_votes_do_not_count() {
    let mut game = game_of(vec![vec![Dead, Dead, Villager]; 3]);
    game.do_night(night(&[0, 0, 0])).unwrap();
    assert_eq!(game.do_day(day(2, &[true, true, false])), Ok(()));
    assert_eq!(boards(&game), vec![vec![Dead, Dead, Villager]; 3]);
}

#[test]
fn zombie_votes_count_with_the_necromancer() {
    let mut game = game_of(vec![
        vec![Zombie, Zombie, Necromancer, Villager, Villager],
        vec![Zombie, Zombie, Villager, Villager, Villager],
        vec![Zombie, Zombie, Villager, Villager, Villager],
        vec![Zombie, Zombie, Villager, Villager, Villager],
        vec![Zombie, Zombie, Villager, Villager, Villager],
    ]);
    game.do_night(night(&[0, 0, 0, 0, 0])).unwrap();
    assert_eq!(game.do_day(day(4, &[true, true, true, false, false])), Ok(()));
    let b = boards(&game);
    // With the necromancer's vote the zombies count: three of five.
    assert_eq!(b[0], vec![Zombie, Zombie, Necromancer, Villager, Dead]);
    // Without it only one living vote counts.
    assert_eq!(b[1], vec![Zombie, Zombie, Villager, Villager, Villager]);
}

#[test]
fn turns_alternate() {
    let mut game = game_of(vec![vec![Mafiosi, Villager, Villager]; 3]);
    game.do_night(night(&[1, 0, 0])).unwrap();
    game.do_day(day(0, &[false, false, false])).unwrap();
    game.do_night(night(&[2, 0, 0])).unwrap();
    // Only the mafioso is alive to vote: one of three is not more than half.
    game.do_day(day(0, &[true, true, true])).unwrap();
    assert_eq!(game.turn_count(), 2);
    assert_eq!(boards(&game), vec![vec![Mafiosi, Dead, Dead]; 3]);
}
