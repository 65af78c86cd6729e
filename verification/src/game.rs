use vstd::prelude::*;

verus! {

/// The class a player has in one subgame.
#[derive(PartialEq, Eq, Structural, Clone, Copy, Debug)]
pub enum PersonClass {
    Villager,
    Mafiosi,
    Medic,
    Necromancer,
    Priest,
    Dead,
    Zombie,
}

/// Why a game refused an action.
#[derive(PartialEq, Eq, Structural, Clone, Copy, Debug)]
pub enum QuantumMafiaError {
    WrongLengthAction,
    WrongTime,
    BadPersonAssignments,
    WrongGameSize,
}

/// A player, by position in the game's list of players.
#[derive(PartialEq, Eq, Structural, Clone, Copy, Debug)]
pub struct Person(pub usize);

/// One player's day action: the player pointed at.
#[derive(Clone, Debug)]
pub struct DayAction(pub Person);

/// One player's night action: the player pointed at.
#[derive(Clone, Debug)]
pub struct NightAction(pub Person);

/// The day's vote: who is accused, and for each entry whether it votes to lynch.
#[derive(Clone, Debug)]
pub struct DayActions {
    pub accused: Person,
    pub votes: Vec<bool>,
}

/// The night's actions, one per entry.
#[derive(Clone, Debug)]
pub struct NightActions(pub Vec<NightAction>);

/// A finished turn: the night's actions, then the day's.
#[derive(Clone, Debug)]
struct Turn(NightActions, DayActions);

/// One subgame: the class of every player.
#[derive(Debug)]
pub struct SubGame {
    people: Vec<PersonClass>,
}

/// The whole game: its subgames, the finished turns, the night awaiting its day, and the
/// players' names.
#[derive(Debug)]
pub struct QuantumMafia {
    subgames: Vec<SubGame>,
    history: Vec<Turn>,
    lastnight: Option<NightActions>,
    player_names: Vec<String>,
}

/// What the mafiosi have said so far during a night.
#[derive(PartialEq, Eq, Structural, Clone, Copy, Debug)]
pub enum MafiosiState {
    NotAgreeing,
    NoVotesYet,
    VoteFor(usize),
}

/// The votes gathered in one subgame during a night: the mafiosi's choice, the target of
/// the medic, of the necromancer and of the priest, and whether some role was held twice.
#[derive(PartialEq, Eq, Structural, Clone, Copy, Debug)]
pub struct NightTally {
    pub mafiosi: MafiosiState,
    pub medic: Option<usize>,
    pub necromancer: Option<usize>,
    pub priest: Option<usize>,
    pub conflict: bool,
}

// ---------------------------------------------------------------------------------------
// Views
// ---------------------------------------------------------------------------------------

/// The players pointed at by night actions.
pub open spec fn night_targets(actions: Seq<NightAction>) -> Seq<usize> {
    actions.map_values(|a: NightAction| a.0.0)
}

impl View for NightActions {
    type V = Seq<usize>;

    open spec fn view(&self) -> Seq<usize> {
        night_targets(self.0@)
    }
}

impl View for DayActions {
    type V = (usize, Seq<bool>);

    open spec fn view(&self) -> (usize, Seq<bool>) {
        (self.accused.0, self.votes@)
    }
}

impl SubGame {
    /// The classes of the players, in player order.
    pub closed spec fn classes(self) -> Seq<PersonClass> {
        self.people@
    }
}

impl QuantumMafia {
    /// The classes in every subgame.
    pub closed spec fn boards(self) -> Seq<Seq<PersonClass>> {
        self.subgames@.map_values(|s: SubGame| s.people@)
    }

    /// The finished turns, oldest first: the night's targets, then the accused and the votes.
    pub closed spec fn turns(self) -> Seq<(Seq<usize>, (usize, Seq<bool>))> {
        self.history@.map_values(|t: Turn| (t.0@, t.1@))
    }

    /// The targets of the night that still awaits its day.
    pub closed spec fn pending_night(self) -> Option<Seq<usize>> {
        match self.lastnight {
            Some(n) => Some(n@),
            None => None,
        }
    }

    /// The players' names.
    pub closed spec fn names(self) -> Seq<Seq<char>> {
        self.player_names@.map_values(|s: String| s@)
    }

    /// Every subgame gives a class to each player.
    pub open spec fn well_formed(self) -> bool {
        forall|g: int| 0 <= g < self.boards().len() ==> #[trigger] self.boards()[g].len() == self.names().len()
    }
}

// ---------------------------------------------------------------------------------------
// The night
// ---------------------------------------------------------------------------------------

pub open spec fn empty_night_tally() -> NightTally {
    NightTally {
        mafiosi: MafiosiState::NoVotesYet,
        medic: None,
        necromancer: None,
        priest: None,
        conflict: false,
    }
}

/// What the mafiosi agree on once one more of them has pointed at `target`.
pub open spec fn mafiosi_step(m: MafiosiState, target: usize) -> MafiosiState {
    match m {
        MafiosiState::NotAgreeing => MafiosiState::NotAgreeing,
        MafiosiState::NoVotesYet => MafiosiState::VoteFor(target),
        MafiosiState::VoteFor(p) => if p == target {
            MafiosiState::VoteFor(p)
        } else {
            MafiosiState::NotAgreeing
        },
    }
}

/// The tally once a player of class `class` has pointed at `target`. A second medic,
/// necromancer or priest is a conflict, after which nothing changes.
pub open spec fn night_step(t: NightTally, class: PersonClass, target: usize) -> NightTally {
    if t.conflict {
        t
    } else {
        match class {
            PersonClass::Mafiosi => NightTally { mafiosi: mafiosi_step(t.mafiosi, target), ..t },
            PersonClass::Medic => if t.medic is Some {
                NightTally { conflict: true, ..t }
            } else {
                NightTally { medic: Some(target), ..t }
            },
            PersonClass::Necromancer => if t.necromancer is Some {
                NightTally { conflict: true, ..t }
            } else {
                NightTally { necromancer: Some(target), ..t }
            },
            PersonClass::Priest => if t.priest is Some {
                NightTally { conflict: true, ..t }
            } else {
                NightTally { priest: Some(target), ..t }
            },
            _ => t,
        }
    }
}

/// The tally of the first `n` night actions, player `i` acting with the class `classes[i]`.
pub open spec fn night_tally(classes: Seq<PersonClass>, targets: Seq<usize>, n: nat) -> NightTally
    decreases n,
{
    if n == 0 {
        empty_night_tally()
    } else {
        night_step(night_tally(classes, targets, (n - 1) as nat), classes[n - 1], targets[n - 1])
    }
}

/// The tally of all night actions in a subgame.
pub open spec fn night_votes(classes: Seq<PersonClass>, targets: Seq<usize>) -> NightTally {
    night_tally(classes, targets, targets.len())
}

/// Some role is held by two players, so the night cannot be played in this subgame.
pub open spec fn night_conflict(classes: Seq<PersonClass>, targets: Seq<usize>) -> bool {
    night_votes(classes, targets).conflict
}

/// The player the mafiosi kill: the one they all agreed on, unless the medic chose them.
pub open spec fn mafia_victim(t: NightTally) -> Option<usize> {
    match t.mafiosi {
        MafiosiState::VoteFor(p) => if t.medic == Some(p) {
            None
        } else {
            Some(p)
        },
        _ => None,
    }
}

/// The classes after the agreed kill, then the necromancer raising a dead player as a
/// zombie, then the priest laying a zombie to rest.
pub open spec fn resolve_night(classes: Seq<PersonClass>, t: NightTally) -> Seq<PersonClass> {
    let killed = match mafia_victim(t) {
        Some(p) => classes.update(p as int, PersonClass::Dead),
        None => classes,
    };
    let raised = match t.necromancer {
        Some(p) => if killed[p as int] == PersonClass::Dead {
            killed.update(p as int, PersonClass::Zombie)
        } else {
            killed
        },
        None => killed,
    };
    match t.priest {
        Some(p) => if raised[p as int] == PersonClass::Zombie {
            raised.update(p as int, PersonClass::Dead)
        } else {
            raised
        },
        None => raised,
    }
}

/// The classes of a subgame after a night without conflict.
pub open spec fn night_outcome(classes: Seq<PersonClass>, targets: Seq<usize>) -> Seq<PersonClass> {
    resolve_night(classes, night_votes(classes, targets))
}

/// Every player that the resolution of the tally touches exists.
pub open spec fn resolution_in_range(len: nat, t: NightTally) -> bool {
    &&& (mafia_victim(t) matches Some(p) ==> p < len)
    &&& (t.necromancer matches Some(p) ==> p < len)
    &&& (t.priest matches Some(p) ==> p < len)
}

/// Playing the night in this subgame reads and writes only players that exist: the
/// gathering stops at a conflict before it runs past the players, and a night without
/// conflict only touches existing players.
pub open spec fn night_in_range(classes: Seq<PersonClass>, targets: Seq<usize>) -> bool {
    &&& (targets.len() <= classes.len() || night_tally(classes, targets, classes.len()).conflict)
    &&& (!night_conflict(classes, targets) ==> resolution_in_range(
        classes.len(),
        night_votes(classes, targets),
    ))
}

/// No subgame before `n` has a conflict.
pub open spec fn nights_clear(boards: Seq<Seq<PersonClass>>, targets: Seq<usize>, n: int) -> bool {
    forall|h: int| 0 <= h < n ==> !night_conflict(#[trigger] boards[h], targets)
}

/// Every subgame that the night reaches (those after a conflict are not) plays it within
/// range.
pub open spec fn night_playable(boards: Seq<Seq<PersonClass>>, targets: Seq<usize>) -> bool {
    forall|g: int|
        0 <= g < boards.len() && nights_clear(boards, targets, g) ==> night_in_range(
            #[trigger] boards[g],
            targets,
        )
}

/// A subgame after the night: played up to the first subgame with a conflict, which and
/// whose followers stay as they were.
pub open spec fn night_board(boards: Seq<Seq<PersonClass>>, targets: Seq<usize>, g: int) -> Seq<PersonClass> {
    if nights_clear(boards, targets, g + 1) {
        night_outcome(boards[g], targets)
    } else {
        boards[g]
    }
}

// ---------------------------------------------------------------------------------------
// The day
// ---------------------------------------------------------------------------------------

/// The lynch votes gathered in a subgame: from the living, from zombies, and whether the
/// necromancer voted.
pub ghost struct DayTally {
    pub living: nat,
    pub zombies: nat,
    pub necromancer_for: bool,
}

pub open spec fn day_tally(classes: Seq<PersonClass>, votes: Seq<bool>, n: nat) -> DayTally
    decreases n,
{
    if n == 0 {
        DayTally { living: 0, zombies: 0, necromancer_for: false }
    } else {
        let t = day_tally(classes, votes, (n - 1) as nat);
        if votes[n - 1] {
            match classes[n - 1] {
                PersonClass::Zombie => DayTally { zombies: t.zombies + 1, ..t },
                PersonClass::Dead => t,
                PersonClass::Necromancer => DayTally {
                    living: t.living + 1,
                    necromancer_for: true,
                    ..t
                },
                _ => DayTally { living: t.living + 1, ..t },
            }
        } else {
            t
        }
    }
}

/// The votes that count: the living ones, and the zombies' too when the necromancer voted.
pub open spec fn day_total(classes: Seq<PersonClass>, votes: Seq<bool>) -> nat {
    let t = day_tally(classes, votes, votes.len());
    if t.necromancer_for {
        t.living + t.zombies
    } else {
        t.living
    }
}

/// More than half of the subgame's players voted to lynch (zombies counting with the
/// necromancer).
pub open spec fn day_condemns(classes: Seq<PersonClass>, votes: Seq<bool>) -> bool {
    day_total(classes, votes) > classes.len() / 2
}

/// The classes of a subgame after the day.
pub open spec fn day_outcome(classes: Seq<PersonClass>, accused: usize, votes: Seq<bool>) -> Seq<PersonClass> {
    if day_condemns(classes, votes) {
        classes.update(accused as int, PersonClass::Dead)
    } else {
        classes
    }
}

/// Playing the day in this subgame reads and writes only players that exist.
pub open spec fn day_in_range(classes: Seq<PersonClass>, accused: usize, votes: Seq<bool>) -> bool {
    &&& forall|i: int| 0 <= i < votes.len() && #[trigger] votes[i] ==> i < classes.len()
    &&& day_condemns(classes, votes) ==> accused < classes.len()
}

// ---------------------------------------------------------------------------------------
// Lemmas
// ---------------------------------------------------------------------------------------

proof fn lemma_conflict_sticky(classes: Seq<PersonClass>, targets: Seq<usize>, i: nat, j: nat)
    requires
        i <= j,
        night_tally(classes, targets, i).conflict,
    ensures
        night_tally(classes, targets, j).conflict,
    decreases j,
{
    if i < j {
        lemma_conflict_sticky(classes, targets, i, (j - 1) as nat);
    }
}

proof fn lemma_day_tally_bounded(classes: Seq<PersonClass>, votes: Seq<bool>, n: nat)
    ensures
        day_tally(classes, votes, n).living + day_tally(classes, votes, n).zombies <= n,
    decreases n,
{
    if n > 0 {
        lemma_day_tally_bounded(classes, votes, (n - 1) as nat);
    }
}

/// A class held by a living player.
pub open spec fn is_alive(c: PersonClass) -> bool {
    c != PersonClass::Dead && c != PersonClass::Zombie
}

/// A night played within range gives each player a class still.
pub proof fn lemma_night_keeps_players(classes: Seq<PersonClass>, targets: Seq<usize>)
    requires
        night_in_range(classes, targets),
        !night_conflict(classes, targets),
    ensures
        night_outcome(classes, targets).len() == classes.len(),
{
}

/// A day played within range gives each player a class still.
pub proof fn lemma_day_keeps_players(classes: Seq<PersonClass>, accused: usize, votes: Seq<bool>)
    requires
        day_in_range(classes, accused, votes),
    ensures
        day_outcome(classes, accused, votes).len() == classes.len(),
{
}

/// No one comes back to life at night: a dead player or a zombie stays dead or a zombie,
/// and a player who is alive after the night had that very class before it.
pub proof fn lemma_night_no_resurrection(classes: Seq<PersonClass>, targets: Seq<usize>, i: int)
    requires
        night_in_range(classes, targets),
        !night_conflict(classes, targets),
        0 <= i < classes.len(),
    ensures
        !is_alive(classes[i]) ==> !is_alive(night_outcome(classes, targets)[i]),
        is_alive(night_outcome(classes, targets)[i]) ==> night_outcome(classes, targets)[i]
            == classes[i],
{
}

/// At night only the mafiosi's victim can lose their life: every other living player keeps
/// their class. In particular a player whom the mafiosi agree on and the medic also
/// chooses survives the night.
pub proof fn lemma_night_spares_all_but_victim(classes: Seq<PersonClass>, targets: Seq<usize>, i: int)
    requires
        night_in_range(classes, targets),
        !night_conflict(classes, targets),
        0 <= i < classes.len(),
        is_alive(classes[i]),
        mafia_victim(night_votes(classes, targets)) != Some(i as usize),
    ensures
        night_outcome(classes, targets)[i] == classes[i],
{
}

/// The medic saves the mafiosi's choice: when the mafiosi agree on a player and the medic
/// chooses that player too, there is no victim.
pub proof fn lemma_medic_saves(t: NightTally, p: usize)
    requires
        t.mafiosi == MafiosiState::VoteFor(p),
        t.medic == Some(p),
    ensures
        mafia_victim(t) is None,
{
}

/// No one comes back to life by day, and no one but the accused changes class.
pub proof fn lemma_day_only_accused(classes: Seq<PersonClass>, accused: usize, votes: Seq<bool>, i: int)
    requires
        day_in_range(classes, accused, votes),
        0 <= i < classes.len(),
    ensures
        i != accused ==> day_outcome(classes, accused, votes)[i] == classes[i],
        i == accused ==> day_outcome(classes, accused, votes)[i] == if day_condemns(classes, votes) {
            PersonClass::Dead
        } else {
            classes[i]
        },
        !is_alive(classes[i]) ==> !is_alive(day_outcome(classes, accused, votes)[i]),
{
}

/// Before any conflict, the tally records each role's choice: every necromancer and priest
/// among the first `n` players is the one whose target the tally holds, and a recorded
/// target was chosen by a player of that class.
proof fn lemma_tally_roles(classes: Seq<PersonClass>, targets: Seq<usize>, n: nat)
    requires
        n <= targets.len(),
        !night_tally(classes, targets, n).conflict,
    ensures
        forall|j: int|
            0 <= j < n && classes[j] == PersonClass::Necromancer ==> night_tally(classes, targets, n).necromancer
                == Some(#[trigger] targets[j]),
        forall|j: int|
            0 <= j < n && classes[j] == PersonClass::Priest ==> night_tally(classes, targets, n).priest
                == Some(#[trigger] targets[j]),
        night_tally(classes, targets, n).necromancer matches Some(p) ==> exists|j: int|
            0 <= j < n && classes[j] == PersonClass::Necromancer && #[trigger] targets[j] == p,
        night_tally(classes, targets, n).priest matches Some(p) ==> exists|j: int|
            0 <= j < n && classes[j] == PersonClass::Priest && #[trigger] targets[j] == p,
    decreases n,
{
    if n > 0 {
        let prev = night_tally(classes, targets, (n - 1) as nat);
        if prev.conflict {
            lemma_conflict_sticky(classes, targets, (n - 1) as nat, n);
        }
        lemma_tally_roles(classes, targets, (n - 1) as nat);
        let t = night_tally(classes, targets, n);
        if let Some(p) = t.necromancer {
            if prev.necromancer == t.necromancer {
                let j = choose|j: int|
                    0 <= j < n - 1 && classes[j] == PersonClass::Necromancer && #[trigger] targets[j] == p;
                assert(0 <= j < n && classes[j] == PersonClass::Necromancer && targets[j] == p);
            } else {
                assert(classes[n - 1] == PersonClass::Necromancer && targets[n - 1] == p);
            }
        }
        if let Some(p) = t.priest {
            if prev.priest == t.priest {
                let j = choose|j: int| 0 <= j < n - 1 && classes[j] == PersonClass::Priest && #[trigger] targets[j] == p;
                assert(0 <= j < n && classes[j] == PersonClass::Priest && targets[j] == p);
            } else {
                assert(classes[n - 1] == PersonClass::Priest && targets[n - 1] == p);
            }
        }
    }
}

/// The necromancer raises the dead: a player dead before the night, whom the necromancer
/// points at and no priest does, is a zombie after it.
pub proof fn lemma_necromancer_raises_the_dead(classes: Seq<PersonClass>, targets: Seq<usize>, n: int)
    requires
        night_in_range(classes, targets),
        !night_conflict(classes, targets),
        0 <= n < targets.len(),
        classes[n] == PersonClass::Necromancer,
        0 <= targets[n] < classes.len(),
        classes[targets[n] as int] == PersonClass::Dead,
        forall|j: int| 0 <= j < targets.len() && classes[j] == PersonClass::Priest ==> #[trigger] targets[j] != targets[n],
    ensures
        night_outcome(classes, targets)[targets[n] as int] == PersonClass::Zombie,
{
    lemma_tally_roles(classes, targets, targets.len());
}

/// The priest lays to rest: a player whom the priest points at, and who was dead or a
/// zombie before the night or is the mafiosi's victim, is dead after it.
pub proof fn lemma_priest_lays_to_rest(classes: Seq<PersonClass>, targets: Seq<usize>, n: int)
    requires
        night_in_range(classes, targets),
        !night_conflict(classes, targets),
        0 <= n < targets.len(),
        classes[n] == PersonClass::Priest,
        0 <= targets[n] < classes.len(),
        !is_alive(classes[targets[n] as int]) || mafia_victim(night_votes(classes, targets)) == Some(targets[n]),
    ensures
        night_outcome(classes, targets)[targets[n] as int] == PersonClass::Dead,
{
    lemma_tally_roles(classes, targets, targets.len());
}

/// Whether a class's lynch vote counts among the living.
pub open spec fn votes_as_living(c: PersonClass) -> bool {
    c != PersonClass::Dead && c != PersonClass::Zombie
}

/// The tally records whether a necromancer among the first `n` voters voted to lynch.
proof fn lemma_day_necromancer_for(classes: Seq<PersonClass>, votes: Seq<bool>, n: nat)
    requires
        n <= votes.len(),
    ensures
        day_tally(classes, votes, n).necromancer_for <==> exists|j: int|
            0 <= j < n && #[trigger] votes[j] && classes[j] == PersonClass::Necromancer,
    decreases n,
{
    if n > 0 {
        lemma_day_necromancer_for(classes, votes, (n - 1) as nat);
        if day_tally(classes, votes, (n - 1) as nat).necromancer_for {
            let j = choose|j: int| 0 <= j < n - 1 && #[trigger] votes[j] && classes[j] == PersonClass::Necromancer;
            assert(0 <= j < n && votes[j] && classes[j] == PersonClass::Necromancer);
        }
        if votes[n - 1] && classes[n - 1] == PersonClass::Necromancer {
            assert(votes[n - 1] && classes[n - 1] == PersonClass::Necromancer);
        }
    }
}

/// How one player's vote changes the tally of the first `n` voters.
proof fn lemma_day_tally_one_vote(classes: Seq<PersonClass>, votes: Seq<bool>, i: int, n: nat)
    requires
        0 <= i < votes.len(),
        n <= votes.len(),
    ensures
        ({
            let on = day_tally(classes, votes.update(i, true), n);
            let off = day_tally(classes, votes.update(i, false), n);
            if n <= i {
                on == off
            } else {
                &&& on.living == off.living + (if votes_as_living(classes[i]) { 1int } else { 0int })
                &&& on.zombies == off.zombies + (if classes[i] == PersonClass::Zombie { 1int } else { 0int })
                &&& on.necromancer_for == (off.necromancer_for || classes[i] == PersonClass::Necromancer)
            }
        }),
    decreases n,
{
    if n > 0 {
        lemma_day_tally_one_vote(classes, votes, i, (n - 1) as nat);
    }
}

/// The lynch votes that count, as one player's vote changes: a dead player's vote never
/// counts; a living player's counts once, and a necromancer's also brings in the zombies'
/// votes when no other necromancer voted; a zombie's counts only when a necromancer votes.
pub proof fn lemma_day_vote_weight(classes: Seq<PersonClass>, votes: Seq<bool>, i: int)
    requires
        0 <= i < votes.len(),
    ensures
        ({
            let on = day_total(classes, votes.update(i, true));
            let off = day_total(classes, votes.update(i, false));
            let other_necromancer = exists|j: int|
                0 <= j < votes.len() && j != i && #[trigger] votes[j] && classes[j] == PersonClass::Necromancer;
            &&& classes[i] == PersonClass::Dead ==> on == off
            &&& votes_as_living(classes[i]) && classes[i] != PersonClass::Necromancer ==> on == off + 1
            &&& classes[i] == PersonClass::Zombie ==> on == off + (if other_necromancer { 1int } else { 0int })
            &&& classes[i] == PersonClass::Necromancer && !other_necromancer ==> on == off + 1
                + day_tally(classes, votes.update(i, false), votes.len()).zombies
            &&& classes[i] == PersonClass::Necromancer && other_necromancer ==> on == off + 1
        }),
{
    let v1 = votes.update(i, true);
    let v0 = votes.update(i, false);
    lemma_day_tally_one_vote(classes, votes, i, votes.len());
    lemma_day_necromancer_for(classes, v0, votes.len());
    let other_necromancer = exists|j: int|
        0 <= j < votes.len() && j != i && #[trigger] votes[j] && classes[j] == PersonClass::Necromancer;
    if other_necromancer {
        let j = choose|j: int| 0 <= j < votes.len() && j != i && #[trigger] votes[j] && classes[j] == PersonClass::Necromancer;
        assert(v0[j]);
    }
    if day_tally(classes, v0, votes.len()).necromancer_for {
        let j = choose|j: int| 0 <= j < votes.len() && #[trigger] v0[j] && classes[j] == PersonClass::Necromancer;
        assert(j != i && votes[j]);
    }
}

/// Zombies' votes count only with a necromancer's vote: when no necromancer votes to lynch,
/// the votes that count are those of the living alone, and no zombie's vote changes them.
pub proof fn lemma_day_zombies_need_necromancer(classes: Seq<PersonClass>, votes: Seq<bool>, i: int)
    requires
        0 <= i < votes.len(),
        classes[i] == PersonClass::Zombie,
        forall|j: int| 0 <= j < votes.len() && #[trigger] votes[j] ==> classes[j] != PersonClass::Necromancer,
    ensures
        day_total(classes, votes.update(i, true)) == day_total(classes, votes.update(i, false)),
        day_total(classes, votes) == day_tally(classes, votes, votes.len()).living,
{
    lemma_day_vote_weight(classes, votes, i);
    lemma_day_necromancer_for(classes, votes, votes.len());
}

/// No vote counts when no one votes to lynch.
pub proof fn lemma_day_no_votes(classes: Seq<PersonClass>, votes: Seq<bool>, n: nat)
    requires
        n <= votes.len(),
        forall|j: int| 0 <= j < votes.len() ==> !#[trigger] votes[j],
    ensures
        day_tally(classes, votes, n).living == 0,
        day_tally(classes, votes, n).zombies == 0,
        !day_tally(classes, votes, n).necromancer_for,
    decreases n,
{
    if n > 0 {
        lemma_day_no_votes(classes, votes, (n - 1) as nat);
    }
}

// ---------------------------------------------------------------------------------------
// Executable rules
// ---------------------------------------------------------------------------------------

impl SubGame {
    pub fn new(people: Vec<PersonClass>) -> (res: Result<SubGame, QuantumMafiaError>)
        ensures
            res matches Ok(sg) && sg.classes() == people@,
    {
        Ok(SubGame { people })
    }

    /// Gathers the night's votes; fails at the first role held twice.
    fn gather_night(&self, votes: &Vec<NightAction>) -> (res: Result<NightTally, QuantumMafiaError>)
        requires
            night_in_range(self.people@, night_targets(votes@)),
        ensures
            match res {
                Ok(t) => !night_conflict(self.people@, night_targets(votes@)) && t == night_votes(
                    self.people@,
                    night_targets(votes@),
                ),
                Err(e) => night_conflict(self.people@, night_targets(votes@)) && e
                    == QuantumMafiaError::BadPersonAssignments,
            },
    {
        let ghost classes = self.people@;
        let ghost targets = night_targets(votes@);
        let mut t = NightTally {
            mafiosi: MafiosiState::NoVotesYet,
            medic: None,
            necromancer: None,
            priest: None,
            conflict: false,
        };
        let mut i: usize = 0;
        while i < votes.len()
            invariant
                classes == self.people@,
                targets == night_targets(votes@),
                night_in_range(classes, targets),
                i <= votes.len(),
                t == night_tally(classes, targets, i as nat),
                !t.conflict,
            decreases votes.len() - i,
        {
            proof {
                if i >= classes.len() {
                    lemma_conflict_sticky(classes, targets, classes.len(), i as nat);
                }
            }
            let target: usize = votes[i].0.0;
            match self.people[i] {
                PersonClass::Mafiosi => {
                    t.mafiosi =
                    match t.mafiosi {
                        MafiosiState::NotAgreeing => MafiosiState::NotAgreeing,
                        MafiosiState::NoVotesYet => MafiosiState::VoteFor(target),
                        MafiosiState::VoteFor(p) => if p != target {
                            MafiosiState::NotAgreeing
                        } else {
                            MafiosiState::VoteFor(p)
                        },
                    };
                },
                PersonClass::Medic => {
                    if t.medic.is_some() {
                        proof {
                            lemma_conflict_sticky(classes, targets, (i + 1) as nat, targets.len());
                        }
                        return Err(QuantumMafiaError::BadPersonAssignments);
                    }
                    t.medic = Some(target);
                },
                PersonClass::Necromancer => {
                    if t.necromancer.is_some() {
                        proof {
                            lemma_conflict_sticky(classes, targets, (i + 1) as nat, targets.len());
                        }
                        return Err(QuantumMafiaError::BadPersonAssignments);
                    }
                    t.necromancer = Some(target);
                },
                PersonClass::Priest => {
                    if t.priest.is_some() {
                        proof {
                            lemma_conflict_sticky(classes, targets, (i + 1) as nat, targets.len());
                        }
                        return Err(QuantumMafiaError::BadPersonAssignments);
                    }
                    t.priest = Some(target);
                },
                _ => {},
            }
            i = i + 1;
        }
        Ok(t)
    }

    /// Applies the gathered night votes: the agreed kill, then the necromancer, then the
    /// priest.
    fn resolve(&mut self, t: &NightTally)
        requires
            resolution_in_range(old(self).people@.len(), *t),
        ensures
            final(self).people@ == resolve_night(old(self).people@, *t),
    {
        match t.mafiosi {
            MafiosiState::VoteFor(p) => {
                let protected = match t.medic {
                    Some(m) => m == p,
                    None => false,
                };
                if !protected {
                    self.people.set(p, PersonClass::Dead);
                }
            },
            _ => {},
        }
        match t.necromancer {
            Some(p) => {
                if self.people[p] == PersonClass::Dead {
                    self.people.set(p, PersonClass::Zombie);
                }
            },
            None => {},
        }
        match t.priest {
            Some(p) => {
                if self.people[p] == PersonClass::Zombie {
                    self.people.set(p, PersonClass::Dead);
                }
            },
            None => {},
        }
    }

    /// Counts the lynch votes and, when more than half count, kills the accused.
    fn apply_day(&mut self, accused: usize, votes: &Vec<bool>)
        requires
            day_in_range(old(self).people@, accused, votes@),
        ensures
            final(self).people@ == day_outcome(old(self).people@, accused, votes@),
    {
        let ghost classes = self.people@;
        let mut zombie_votes: usize = 0;
        let mut living_votes: usize = 0;
        let mut necromancer_for = false;
        let mut i: usize = 0;
        while i < votes.len()
            invariant
                classes == self.people@,
                day_in_range(classes, accused, votes@),
                i <= votes.len(),
                living_votes == day_tally(classes, votes@, i as nat).living,
                zombie_votes == day_tally(classes, votes@, i as nat).zombies,
                necromancer_for == day_tally(classes, votes@, i as nat).necromancer_for,
            decreases votes.len() - i,
        {
            proof {
                lemma_day_tally_bounded(classes, votes@, i as nat);
            }
            if votes[i] {
                match self.people[i] {
                    PersonClass::Zombie => zombie_votes = zombie_votes + 1,
                    PersonClass::Dead => {},
                    _ => living_votes = living_votes + 1,
                }
                if self.people[i] == PersonClass::Necromancer {
                    necromancer_for = true;
                }
            }
            i = i + 1;
        }
        proof {
            lemma_day_tally_bounded(classes, votes@, votes@.len());
        }
        if necromancer_for {
            living_votes = living_votes + zombie_votes;
        }
        if living_votes > self.people.len() / 2 {
            self.people.set(accused, PersonClass::Dead);
        }
    }
}

impl QuantumMafia {
    /// Starts a game; every subgame must give a class to each player.
    pub fn new(player_names: Vec<String>, subgames: Vec<SubGame>) -> (res: Result<QuantumMafia, QuantumMafiaError>)
        ensures
            res is Ok <==> forall|g: int|
                0 <= g < subgames@.len() ==> #[trigger] subgames@[g].classes().len() == player_names@.len(),
            res matches Ok(game) ==> {
                &&& game.boards() == subgames@.map_values(|s: SubGame| s.classes())
                &&& game.names() == player_names@.map_values(|s: String| s@)
                &&& game.turns() == Seq::<(Seq<usize>, (usize, Seq<bool>))>::empty()
                &&& game.pending_night() is None
                &&& game.well_formed()
            },
            res matches Err(e) ==> e == QuantumMafiaError::WrongGameSize,
    {
        let mut g: usize = 0;
        while g < subgames.len()
            invariant
                g <= subgames.len(),
                forall|h: int| 0 <= h < g ==> #[trigger] subgames@[h].classes().len() == player_names@.len(),
            decreases subgames.len() - g,
        {
            if subgames[g].people.len() != player_names.len() {
                assert(subgames@[g as int].classes().len() != player_names@.len());
                return Err(QuantumMafiaError::WrongGameSize);
            }
            g = g + 1;
        }
        let game = QuantumMafia { subgames, history: Vec::new(), lastnight: None, player_names };
        assert(game.boards() =~= game.subgames@.map_values(|s: SubGame| s.classes()));
        assert(game.turns() =~= Seq::<(Seq<usize>, (usize, Seq<bool>))>::empty());
        Ok(game)
    }

    /// Wraps one night action per subgame.
    pub fn new_night_action(&self, votes: Vec<NightAction>) -> (res: Result<NightActions, QuantumMafiaError>)
        ensures
            res is Ok <==> votes@.len() == self.boards().len(),
            res matches Ok(n) ==> n.0@ == votes@,
            res matches Err(e) ==> e == QuantumMafiaError::WrongLengthAction,
    {
        if self.subgames.len() != votes.len() {
            return Err(QuantumMafiaError::WrongLengthAction);
        }
        Ok(NightActions(votes))
    }

    /// Plays the night in every subgame in turn, stopping at the first subgame where a
    /// role is held twice; that subgame and those after it stay as they were.
    fn play_night(&mut self, votes: &Vec<NightAction>) -> (res: Result<(), QuantumMafiaError>)
        requires
            night_playable(old(self).boards(), night_targets(votes@)),
        ensures
            final(self).boards().len() == old(self).boards().len(),
            forall|g: int|
                0 <= g < old(self).boards().len() ==> #[trigger] final(self).boards()[g] == night_board(
                    old(self).boards(),
                    night_targets(votes@),
                    g,
                ),
            final(self).history == old(self).history,
            final(self).lastnight == old(self).lastnight,
            final(self).player_names == old(self).player_names,
            res is Ok <==> nights_clear(old(self).boards(), night_targets(votes@), old(self).boards().len() as int),
            res matches Err(e) ==> e == QuantumMafiaError::BadPersonAssignments,
    {
        let ghost before = self.boards();
        let ghost targets = night_targets(votes@);
        let mut g: usize = 0;
        while g < self.subgames.len()
            invariant
                before == old(self).boards(),
                targets == night_targets(votes@),
                night_playable(before, targets),
                self.boards().len() == before.len(),
                self.history == old(self).history,
                self.lastnight == old(self).lastnight,
                self.player_names == old(self).player_names,
                g <= before.len(),
                nights_clear(before, targets, g as int),
                forall|h: int| 0 <= h < g ==> #[trigger] self.boards()[h] == night_outcome(before[h], targets),
                forall|h: int| g <= h < before.len() ==> #[trigger] self.boards()[h] == before[h],
            decreases before.len() - g,
        {
            assert(self.boards()[g as int] == self.subgames@[g as int].people@);
            let tally = match self.subgames[g].gather_night(votes) {
                Ok(t) => t,
                Err(e) => {
                    assert forall|h: int| 0 <= h < before.len() implies #[trigger] self.boards()[h]
                        == night_board(before, targets, h) by {
                        if h >= g {
                            assert(!nights_clear(before, targets, h + 1));
                        }
                    }
                    return Err(e);
                },
            };
            let ghost prev_subgames = self.subgames@;
            let ghost prev_boards = self.boards();
            let mut sg = SubGame { people: Vec::new() };
            self.subgames.set_and_swap(g, &mut sg);
            sg.resolve(&tally);
            self.subgames.set(g, sg);
            assert forall|h: int| 0 <= h < before.len() && h != g implies #[trigger] self.boards()[h]
                == prev_boards[h] by {
                assert(self.subgames@[h] == prev_subgames[h]);
                assert(prev_boards[h] == prev_subgames[h].people@);
            }
            assert(self.boards()[g as int] == night_outcome(before[g as int], targets));
            g = g + 1;
        }
        assert forall|h: int| 0 <= h < before.len() implies #[trigger] self.boards()[h]
            == night_board(before, targets, h) by {
            assert(nights_clear(before, targets, h + 1));
        }
        Ok(())
    }

    /// Plays a night. It is refused when the actions are not one per subgame, or when the
    /// last night still awaits its day. Otherwise the night is recorded as awaiting its
    /// day, and each subgame plays it up to the first one where a role is held twice.
    pub fn do_night(&mut self, a: NightActions) -> (res: Result<(), QuantumMafiaError>)
        requires
            a@.len() == old(self).boards().len() && old(self).pending_night() is None
                ==> night_playable(old(self).boards(), a@),
        ensures
            a@.len() != old(self).boards().len() ==> res == Err::<(), QuantumMafiaError>(
                QuantumMafiaError::WrongLengthAction,
            ) && *final(self) == *old(self),
            a@.len() == old(self).boards().len() && old(self).pending_night() is Some ==> res
                == Err::<(), QuantumMafiaError>(QuantumMafiaError::WrongTime) && *final(self)
                == *old(self),
            a@.len() == old(self).boards().len() && old(self).pending_night() is None ==> {
                &&& final(self).pending_night() == Some(a@)
                &&& final(self).turns() == old(self).turns()
                &&& final(self).names() == old(self).names()
                &&& final(self).boards().len() == old(self).boards().len()
                &&& forall|g: int|
                    0 <= g < old(self).boards().len() ==> #[trigger] final(self).boards()[g]
                        == night_board(old(self).boards(), a@, g)
                &&& (res is Ok <==> nights_clear(old(self).boards(), a@, old(self).boards().len() as int))
                &&& (res matches Err(e) ==> e == QuantumMafiaError::BadPersonAssignments)
            },
            old(self).well_formed() ==> final(self).well_formed(),
    {
        if a.0.len() != self.subgames.len() {
            return Err(QuantumMafiaError::WrongLengthAction);
        }
        if self.lastnight.is_some() {
            return Err(QuantumMafiaError::WrongTime);
        }
        let res = self.play_night(&a.0);
        self.lastnight = Some(a);
        proof {
            let before = old(self).boards();
            assert forall|g: int| 0 <= g < before.len() implies #[trigger] self.boards()[g].len()
                == before[g].len() by {
                if nights_clear(before, a@, g + 1) {
                    assert(nights_clear(before, a@, g));
                    lemma_night_keeps_players(before[g], a@);
                }
            }
        }
        res
    }

    /// Plays the day in every subgame.
    fn play_day(&mut self, a: &DayActions)
        requires
            forall|g: int|
                0 <= g < old(self).boards().len() ==> day_in_range(
                    #[trigger] old(self).boards()[g],
                    a.accused.0,
                    a.votes@,
                ),
        ensures
            final(self).boards().len() == old(self).boards().len(),
            forall|g: int|
                0 <= g < old(self).boards().len() ==> #[trigger] final(self).boards()[g] == day_outcome(
                    old(self).boards()[g],
                    a.accused.0,
                    a.votes@,
                ),
            final(self).history == old(self).history,
            final(self).lastnight == old(self).lastnight,
            final(self).player_names == old(self).player_names,
    {
        let ghost before = self.boards();
        let mut g: usize = 0;
        while g < self.subgames.len()
            invariant
                before == old(self).boards(),
                forall|h: int| 0 <= h < before.len() ==> day_in_range(#[trigger] before[h], a.accused.0, a.votes@),
                self.boards().len() == before.len(),
                self.history == old(self).history,
                self.lastnight == old(self).lastnight,
                self.player_names == old(self).player_names,
                g <= before.len(),
                forall|h: int| 0 <= h < g ==> #[trigger] self.boards()[h] == day_outcome(before[h], a.accused.0, a.votes@),
                forall|h: int| g <= h < before.len() ==> #[trigger] self.boards()[h] == before[h],
            decreases before.len() - g,
        {
            assert(self.boards()[g as int] == self.subgames@[g as int].people@);
            let ghost prev_subgames = self.subgames@;
            let ghost prev_boards = self.boards();
            let mut sg = SubGame { people: Vec::new() };
            self.subgames.set_and_swap(g, &mut sg);
            sg.apply_day(a.accused.0, &a.votes);
            self.subgames.set(g, sg);
            assert forall|h: int| 0 <= h < before.len() && h != g implies #[trigger] self.boards()[h]
                == prev_boards[h] by {
                assert(self.subgames@[h] == prev_subgames[h]);
                assert(prev_boards[h] == prev_subgames[h].people@);
            }
            assert(self.boards()[g as int] == day_outcome(before[g as int], a.accused.0, a.votes@));
            g = g + 1;
        }
    }

    /// Plays a day. It is refused when the votes are not one per subgame, or when no night
    /// awaits its day. Otherwise the awaiting night and this day become a finished turn,
    /// and in each subgame the accused dies when more than half of its players' votes count.
    pub fn do_day(&mut self, a: DayActions) -> (res: Result<(), QuantumMafiaError>)
        requires
            a@.1.len() == old(self).boards().len() && old(self).pending_night() is Some ==> forall|g: int|
                0 <= g < old(self).boards().len() ==> day_in_range(
                    #[trigger] old(self).boards()[g],
                    a@.0,
                    a@.1,
                ),
        ensures
            a@.1.len() != old(self).boards().len() ==> res == Err::<(), QuantumMafiaError>(
                QuantumMafiaError::WrongLengthAction,
            ) && *final(self) == *old(self),
            a@.1.len() == old(self).boards().len() && old(self).pending_night() is None ==> res
                == Err::<(), QuantumMafiaError>(QuantumMafiaError::WrongTime) && *final(self)
                == *old(self),
            a@.1.len() == old(self).boards().len() && old(self).pending_night() is Some ==> {
                &&& res is Ok
                &&& final(self).pending_night() is None
                &&& final(self).turns() == old(self).turns().push((old(self).pending_night().unwrap(), a@))
                &&& final(self).names() == old(self).names()
                &&& final(self).boards().len() == old(self).boards().len()
                &&& forall|g: int|
                    0 <= g < old(self).boards().len() ==> #[trigger] final(self).boards()[g]
                        == day_outcome(old(self).boards()[g], a@.0, a@.1)
            },
            old(self).well_formed() ==> final(self).well_formed(),
    {
        if a.votes.len() != self.subgames.len() {
            return Err(QuantumMafiaError::WrongLengthAction);
        }
        let lastnight = match self.lastnight.take() {
            Some(lastnight) => lastnight,
            None => return Err(QuantumMafiaError::WrongTime),
        };
        assert(self.boards() == old(self).boards());
        assert(old(self).pending_night() is Some);
        self.play_day(&a);
        self.history.push(Turn(lastnight, a));
        assert(self.turns() =~= old(self).turns().push((old(self).pending_night().unwrap(), a@)));
        proof {
            let before = old(self).boards();
            assert forall|g: int| 0 <= g < before.len() implies #[trigger] self.boards()[g].len()
                == before[g].len() by {
                lemma_day_keeps_players(before[g], a@.0, a@.1);
            }
        }
        Ok(())
    }
}

impl SubGame {
    /// The classes of the players, in player order.
    pub fn people(&self) -> (people: &Vec<PersonClass>)
        ensures
            people@ == self.classes(),
    {
        &self.people
    }
}

impl QuantumMafia {
    /// The subgames.
    pub fn subgames(&self) -> (subgames: &Vec<SubGame>)
        ensures
            subgames@.map_values(|s: SubGame| s.classes()) == self.boards(),
    {
        assert(self.subgames@.map_values(|s: SubGame| s.classes()) =~= self.boards());
        &self.subgames
    }

    /// The players' names.
    pub fn player_names(&self) -> (names: &Vec<String>)
        ensures
            names@.map_values(|s: String| s@) == self.names(),
    {
        &self.player_names
    }

    /// Whether a night awaits its day.
    pub fn night_pending(&self) -> (b: bool)
        ensures
            b == self.pending_night() is Some,
    {
        self.lastnight.is_some()
    }

    /// The number of finished turns.
    pub fn turn_count(&self) -> (n: usize)
        ensures
            n == self.turns().len(),
    {
        self.history.len()
    }
}

} // verus!
