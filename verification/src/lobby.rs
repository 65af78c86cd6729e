use vstd::prelude::*;
use crate::game::QuantumMafia;

verus! {

// ---------------------------------------------------------------------------------------
// The lobby: players connect, pick a name, and open or join games that wait to start.
// A player is known by the position at which their connection was opened; a connection's
// token addresses it while it stays connected.
// ---------------------------------------------------------------------------------------

/// A connection and its player.
#[derive(Debug)]
pub struct Player {
    token: usize,
    name: String,
    game: Option<usize>,
    connected: bool,
}

/// Whether a game still waits for players or is being played.
#[derive(Debug)]
pub enum GameState {
    WaitingToStart,
    Playing(QuantumMafia),
}

/// A game: its players (in the order they joined, a player listed once per joining), its
/// state and its name.
#[derive(Debug)]
pub struct Game {
    players: Vec<usize>,
    state: GameState,
    name: String,
}

/// Everything the server knows: the players by connection, the waiting room, and the games
/// by number.
#[derive(Debug)]
pub struct Lobby {
    players: Vec<Player>,
    waiting_room: Vec<usize>,
    games: Vec<Game>,
}

/// A request from a client.
#[derive(PartialEq, Eq, Debug)]
pub enum Command {
    SetName(String),
    EnterGame(usize),
    CreateGame(String),
}

/// Why a request was refused.
#[derive(PartialEq, Eq, Structural, Clone, Copy, Debug)]
pub enum LobbyError {
    /// There is no game with this number.
    InvalidReference(usize),
}

/// What a client is told to show.
#[derive(PartialEq, Eq, Debug)]
pub enum SetClientState {
    SetNickname,
    WaitingRoom {
        nickname: String,
        waiting_room_people: Vec<String>,
        open_games: Vec<(usize, String, Vec<String>)>,
    },
    UnstartedGame { nickname: String, game_name: String, people_in_game: Vec<String> },
}

// ---------------------------------------------------------------------------------------
// Models
// ---------------------------------------------------------------------------------------

pub ghost struct PlayerModel {
    pub token: usize,
    pub name: Seq<char>,
    pub game: Option<usize>,
    pub connected: bool,
}

pub ghost struct GameModel {
    pub players: Seq<usize>,
    pub started: bool,
    pub name: Seq<char>,
}

pub ghost struct LobbyModel {
    pub players: Seq<PlayerModel>,
    pub waiting_room: Seq<usize>,
    pub games: Seq<GameModel>,
}

pub ghost enum CommandModel {
    SetName(Seq<char>),
    EnterGame(usize),
    CreateGame(Seq<char>),
}

pub ghost enum ClientView {
    SetNickname,
    WaitingRoom {
        nickname: Seq<char>,
        waiting_room_people: Seq<Seq<char>>,
        open_games: Seq<(usize, Seq<char>, Seq<Seq<char>>)>,
    },
    UnstartedGame { nickname: Seq<char>, game_name: Seq<char>, people_in_game: Seq<Seq<char>> },
}

pub open spec fn string_views(v: Seq<String>) -> Seq<Seq<char>> {
    v.map_values(|s: String| s@)
}

pub open spec fn open_game_views(v: Seq<(usize, String, Vec<String>)>) -> Seq<(usize, Seq<char>, Seq<Seq<char>>)> {
    v.map_values(|g: (usize, String, Vec<String>)| (g.0, g.1@, string_views(g.2@)))
}

impl View for Player {
    type V = PlayerModel;

    closed spec fn view(&self) -> PlayerModel {
        PlayerModel { token: self.token, name: self.name@, game: self.game, connected: self.connected }
    }
}

impl View for Game {
    type V = GameModel;

    closed spec fn view(&self) -> GameModel {
        GameModel { players: self.players@, started: self.state is Playing, name: self.name@ }
    }
}

impl View for Lobby {
    type V = LobbyModel;

    closed spec fn view(&self) -> LobbyModel {
        LobbyModel {
            players: self.players@.map_values(|p: Player| p@),
            waiting_room: self.waiting_room@,
            games: self.games@.map_values(|g: Game| g@),
        }
    }
}

impl View for Command {
    type V = CommandModel;

    open spec fn view(&self) -> CommandModel {
        match self {
            Command::SetName(name) => CommandModel::SetName(name@),
            Command::EnterGame(id) => CommandModel::EnterGame(*id),
            Command::CreateGame(name) => CommandModel::CreateGame(name@),
        }
    }
}

impl View for SetClientState {
    type V = ClientView;

    open spec fn view(&self) -> ClientView {
        match self {
            SetClientState::SetNickname => ClientView::SetNickname,
            SetClientState::WaitingRoom { nickname, waiting_room_people, open_games } => ClientView::WaitingRoom {
                nickname: nickname@,
                waiting_room_people: string_views(waiting_room_people@),
                open_games: open_game_views(open_games@),
            },
            SetClientState::UnstartedGame { nickname, game_name, people_in_game } => ClientView::UnstartedGame {
                nickname: nickname@,
                game_name: game_name@,
                people_in_game: string_views(people_in_game@),
            },
        }
    }
}

// ---------------------------------------------------------------------------------------
// The rules, over models
// ---------------------------------------------------------------------------------------

/// The player is known and still connected.
pub open spec fn live(m: LobbyModel, id: usize) -> bool {
    id < m.players.len() && m.players[id as int].connected
}

/// Every player in the list is known and still connected.
pub open spec fn all_live(m: LobbyModel, ids: Seq<usize>) -> bool {
    forall|i: int| 0 <= i < ids.len() ==> live(m, #[trigger] ids[i])
}

/// The connected player that the token addresses.
pub open spec fn addresses(m: LobbyModel, token: usize, id: usize) -> bool {
    live(m, id) && m.players[id as int].token == token
}

/// A token addresses at most one connected player; the waiting room holds connected players,
/// each once; every game a player joined exists; every game lists known players.
pub open spec fn well_formed(m: LobbyModel) -> bool {
    &&& forall|i: usize, j: usize|
        live(m, i) && live(m, j) && #[trigger] m.players[i as int].token == #[trigger] m.players[j as int].token
            ==> i == j
    &&& all_live(m, m.waiting_room)
    &&& m.waiting_room.no_duplicates()
    &&& forall|i: int|
        0 <= i < m.players.len() ==> (#[trigger] m.players[i].game matches Some(g) ==> g < m.games.len())
    &&& forall|g: int, k: int|
        0 <= g < m.games.len() && 0 <= k < m.games[g].players.len() ==> #[trigger] m.games[g].players[k]
            < m.players.len()
}

/// The names of the listed players.
pub open spec fn names_of(m: LobbyModel, ids: Seq<usize>) -> Seq<Seq<char>> {
    ids.map_values(|id: usize| m.players[id as int].name)
}

/// The games among the first `n` that wait to start: number, name and players' names.
pub open spec fn open_games_upto(m: LobbyModel, n: nat) -> Seq<(usize, Seq<char>, Seq<Seq<char>>)>
    decreases n,
{
    if n == 0 {
        Seq::empty()
    } else {
        let before = open_games_upto(m, (n - 1) as nat);
        let g = m.games[n - 1];
        if g.started {
            before
        } else {
            before.push(((n - 1) as usize, g.name, names_of(m, g.players)))
        }
    }
}

/// Every game that waits to start.
pub open spec fn open_games_of(m: LobbyModel) -> Seq<(usize, Seq<char>, Seq<Seq<char>>)> {
    open_games_upto(m, m.games.len())
}

/// What a player is shown: their game and its players when they joined one, otherwise the
/// waiting room and the games that wait to start.
pub open spec fn view_of(m: LobbyModel, id: usize) -> ClientView {
    let p = m.players[id as int];
    match p.game {
        Some(g) => ClientView::UnstartedGame {
            nickname: p.name,
            game_name: m.games[g as int].name,
            people_in_game: names_of(m, m.games[g as int].players),
        },
        None => ClientView::WaitingRoom {
            nickname: p.name,
            waiting_room_people: names_of(m, m.waiting_room),
            open_games: open_games_of(m),
        },
    }
}

/// The player can be shown their view: they are connected, and so is every player the view
/// names.
pub open spec fn view_ok(m: LobbyModel, id: usize) -> bool {
    &&& live(m, id)
    &&& match m.players[id as int].game {
        Some(g) => all_live(m, m.games[g as int].players),
        None => {
            &&& all_live(m, m.waiting_room)
            &&& forall|g: int|
                0 <= g < m.games.len() && !(#[trigger] m.games[g]).started ==> all_live(m, m.games[g].players)
        },
    }
}

/// The lobby once a new connection with this token has opened.
pub open spec fn opened(m: LobbyModel, token: usize) -> LobbyModel {
    LobbyModel {
        players: m.players.push(PlayerModel { token, name: "Noname"@, game: None, connected: true }),
        ..m
    }
}

/// The lobby after the player's request, and the players to be sent their view, in order;
/// or the number of a game that does not exist.
pub open spec fn after_command(m: LobbyModel, id: usize, cmd: CommandModel) -> Result<(LobbyModel, Seq<usize>), usize> {
    let p = m.players[id as int];
    match cmd {
        CommandModel::SetName(name) => {
            let waiting = if m.waiting_room.contains(id) {
                m.waiting_room
            } else {
                m.waiting_room.push(id)
            };
            let post = LobbyModel {
                players: m.players.update(id as int, PlayerModel { name, ..p }),
                waiting_room: waiting,
                ..m
            };
            Ok((post, waiting))
        },
        CommandModel::EnterGame(g) => {
            if g < m.games.len() {
                let members = m.games[g as int].players.push(id);
                let post = LobbyModel {
                    players: m.players.update(id as int, PlayerModel { game: Some(g), ..p }),
                    waiting_room: m.waiting_room.remove_value(id),
                    games: m.games.update(g as int, GameModel { players: members, ..m.games[g as int] }),
                };
                Ok((post, seq![id] + post.waiting_room + members))
            } else {
                Err(g)
            }
        },
        CommandModel::CreateGame(name) => {
            let g: usize = m.games.len() as usize;
            let post = LobbyModel {
                players: m.players.update(id as int, PlayerModel { game: Some(g), ..p }),
                waiting_room: m.waiting_room.remove_value(id),
                games: m.games.push(GameModel { players: seq![id], started: false, name }),
            };
            Ok((post, post.waiting_room + seq![id]))
        },
    }
}

/// A player can leave their game: they are connected, and either they joined no game, or
/// the game still waits to start, has another player besides, lists them, and lists only
/// connected players up to where it lists them first.
pub open spec fn leave_ok(m: LobbyModel, id: usize) -> bool {
    &&& live(m, id)
    &&& match m.players[id as int].game {
        None => true,
        Some(g) => {
            let members = m.games[g as int].players;
            &&& members.len() > 1
            &&& !m.games[g as int].started
            &&& members.contains(id)
            &&& forall|k: int|
                0 <= k < members.len() && !members.take(k).contains(id) ==> live(m, #[trigger] members[k])
        },
    }
}

/// The lobby once the player left the game they joined last (listed there once less), and
/// the players that remain in it, to be sent their view.
pub open spec fn after_leave(m: LobbyModel, id: usize) -> (LobbyModel, Seq<usize>) {
    match m.players[id as int].game {
        None => (m, Seq::empty()),
        Some(g) => {
            let members = m.games[g as int].players.remove_value(id);
            (
                LobbyModel {
                    games: m.games.update(g as int, GameModel { players: members, ..m.games[g as int] }),
                    ..m
                },
                members,
            )
        },
    }
}

/// The lobby once the player's connection closed: out of the waiting room and no longer
/// connected.
pub open spec fn disconnected(m: LobbyModel, id: usize) -> LobbyModel {
    LobbyModel {
        players: m.players.update(id as int, PlayerModel { connected: false, ..m.players[id as int] }),
        waiting_room: m.waiting_room.remove_value(id),
        ..m
    }
}

// ---------------------------------------------------------------------------------------
// Lemmas
// ---------------------------------------------------------------------------------------

/// Opening a connection with a fresh token keeps the lobby well formed.
pub proof fn lemma_opened_well_formed(m: LobbyModel, token: usize)
    requires
        well_formed(m),
        forall|id: usize| !addresses(m, token, id),
    ensures
        well_formed(opened(m, token)),
{
    let post = opened(m, token);
    assert forall|id: usize| live(m, id) implies live(post, id) && post.players[id as int] == m.players[id as int] by {}
    assert forall|i: usize, j: usize|
        live(post, i) && live(post, j) && #[trigger] post.players[i as int].token == #[trigger] post.players[j as int].token
        implies i == j by {
        if i < m.players.len() && j < m.players.len() {
            assert(live(m, i) && live(m, j));
        } else if i < m.players.len() {
            assert(addresses(m, token, i));
        } else if j < m.players.len() {
            assert(addresses(m, token, j));
        }
    }
    assert(all_live(post, post.waiting_room));
}

/// Removing a value keeps only elements of the list; from a list without duplicates it
/// removes the value altogether and leaves no duplicates.
pub proof fn lemma_remove_value(s: Seq<usize>, x: usize)
    ensures
        forall|k: int| 0 <= k < s.remove_value(x).len() ==> s.contains(#[trigger] s.remove_value(x)[k]),
        s.no_duplicates() ==> s.remove_value(x).no_duplicates() && !s.remove_value(x).contains(x),
{
    s.index_of_first_ensures(x);
    let r = s.remove_value(x);
    match s.index_of_first(x) {
        Some(i) => {
            s.remove_ensures(i);
            assert forall|k: int| 0 <= k < r.len() implies s.contains(#[trigger] r[k]) by {
                if k < i {
                    assert(r[k] == s[k]);
                } else {
                    assert(r[k] == s[k + 1]);
                }
            }
            if s.no_duplicates() {
                assert forall|a: int, b: int| 0 <= a < r.len() && 0 <= b < r.len() && a != b implies r[a]
                    != r[b] by {
                    let sa: int = if a < i { a } else { a + 1 };
                    let sb: int = if b < i { b } else { b + 1 };
                    assert(r[a] == s[sa]);
                    assert(r[b] == s[sb]);
                }
                assert forall|k: int| 0 <= k < r.len() implies r[k] != x by {
                    let sk: int = if k < i { k } else { k + 1 };
                    assert(r[k] == s[sk]);
                }
            }
        },
        None => {},
    }
}

/// Each request keeps the lobby well formed.
pub proof fn lemma_after_command_well_formed(m: LobbyModel, id: usize, cmd: CommandModel)
    requires
        well_formed(m),
        live(m, id),
    ensures
        after_command(m, id, cmd) matches Ok((post, _)) ==> well_formed(post),
{
    lemma_remove_value(m.waiting_room, id);
    match after_command(m, id, cmd) {
        Ok((post, _)) => {
            assert(post.players.len() == m.players.len());
            assert forall|i: usize| #[trigger] live(post, i) == live(m, i) && (live(m, i) ==> post.players[i as int].token
                == m.players[i as int].token) by {}
            assert forall|i: usize, j: usize|
                live(post, i) && live(post, j) && #[trigger] post.players[i as int].token
                    == #[trigger] post.players[j as int].token implies i == j by {
                assert(live(m, i) && live(m, j));
            }
            assert forall|k: int| 0 <= k < post.waiting_room.len() implies live(post, #[trigger] post.waiting_room[k]) by {
                match cmd {
                    CommandModel::SetName(_) => {
                        if !m.waiting_room.contains(id) && k == m.waiting_room.len() {
                        } else {
                            assert(live(m, m.waiting_room[k]));
                        }
                    },
                    _ => {
                        assert(m.waiting_room.contains(post.waiting_room[k]));
                        let j: int = choose|j: int| 0 <= j < m.waiting_room.len() && m.waiting_room[j] == post.waiting_room[k];
                        assert(live(m, m.waiting_room[j]));
                    },
                }
            }
            assert(all_live(post, post.waiting_room));
            assert forall|i: int|
                0 <= i < post.players.len() implies (#[trigger] post.players[i].game matches Some(g) ==> g
                < post.games.len()) by {
                if i != id {
                    assert(post.players[i] == m.players[i]);
                }
            }
            assert forall|g: int, k: int|
                0 <= g < post.games.len() && 0 <= k < post.games[g].players.len() implies #[trigger] post.games[g].players[k]
                < post.players.len() by {
                if g < m.games.len() && k < m.games[g].players.len() {
                    assert(post.games[g].players[k] == m.games[g].players[k]);
                }
            }
        },
        Err(_) => {},
    }
}

/// Leaving a game keeps the lobby well formed.
pub proof fn lemma_after_leave_well_formed(m: LobbyModel, id: usize)
    requires
        well_formed(m),
        live(m, id),
    ensures
        well_formed(after_leave(m, id).0),
{
    let post = after_leave(m, id).0;
    if let Some(g) = m.players[id as int].game {
        let members = m.games[g as int].players;
        lemma_remove_value(members, id);
        assert forall|h: int, k: int|
            0 <= h < post.games.len() && 0 <= k < post.games[h].players.len() implies #[trigger] post.games[h].players[k]
            < post.players.len() by {
            if h == g {
                assert(members.contains(post.games[h].players[k]));
            } else {
                assert(post.games[h] == m.games[h]);
            }
        }
        assert forall|i: int|
            0 <= i < post.players.len() implies (#[trigger] post.players[i].game matches Some(gg) ==> gg
            < post.games.len()) by {
            assert(post.players[i] == m.players[i]);
        }
    }
}

/// Closing a connection keeps the lobby well formed.
pub proof fn lemma_disconnected_well_formed(m: LobbyModel, id: usize)
    requires
        well_formed(m),
        live(m, id),
    ensures
        well_formed(disconnected(m, id)),
{
    let post = disconnected(m, id);
    lemma_remove_value(m.waiting_room, id);
    assert forall|i: usize| #[trigger] live(post, i) implies live(m, i) && post.players[i as int].token
        == m.players[i as int].token by {}
    assert forall|i: usize, j: usize|
        live(post, i) && live(post, j) && #[trigger] post.players[i as int].token
            == #[trigger] post.players[j as int].token implies i == j by {
        assert(live(m, i) && live(m, j));
    }
    assert forall|k: int| 0 <= k < post.waiting_room.len() implies live(post, #[trigger] post.waiting_room[k]) by {
        let x: usize = post.waiting_room[k];
        assert(m.waiting_room.contains(x));
        let j: int = choose|j: int| 0 <= j < m.waiting_room.len() && m.waiting_room[j] == x;
        assert(live(m, m.waiting_room[j]));
        assert(x != id);
    }
    assert forall|i: int|
        0 <= i < post.players.len() implies (#[trigger] post.players[i].game matches Some(g) ==> g
        < post.games.len()) by {
        assert(post.players[i].game == m.players[i].game);
    }
}

/// Joining a game, by entering or creating it, takes the player out of the waiting room and
/// lists them in that game, which becomes the game they are shown; naming oneself puts one
/// in the waiting room.
pub proof fn lemma_join_leaves_waiting_room(m: LobbyModel, id: usize, cmd: CommandModel)
    requires
        well_formed(m),
        live(m, id),
    ensures
        after_command(m, id, cmd) matches Ok((post, _)) ==> match cmd {
            CommandModel::SetName(name) => post.waiting_room.contains(id) && post.players[id as int].name
                == name,
            CommandModel::EnterGame(g) => {
                &&& !post.waiting_room.contains(id)
                &&& post.players[id as int].game == Some(g)
                &&& post.games[g as int].players.contains(id)
            },
            CommandModel::CreateGame(_) => {
                &&& !post.waiting_room.contains(id)
                &&& post.players[id as int].game == Some(m.games.len() as usize)
                &&& post.games[m.games.len() as int].players == seq![id]
            },
        },
{
    lemma_remove_value(m.waiting_room, id);
    match after_command(m, id, cmd) {
        Ok((post, _)) => {
            match cmd {
                CommandModel::SetName(_) => {
                    if !m.waiting_room.contains(id) {
                        assert(post.waiting_room[m.waiting_room.len() as int] == id);
                    }
                },
                CommandModel::EnterGame(g) => {
                    let members = post.games[g as int].players;
                    assert(members[members.len() - 1] == id);
                },
                CommandModel::CreateGame(_) => {},
            }
        },
        Err(_) => {},
    }
}

/// A new game is listed among the games that wait to start, last, under its number, with
/// its creator as its only player.
pub proof fn lemma_created_game_is_open(m: LobbyModel, id: usize, name: Seq<char>)
    requires
        well_formed(m),
        live(m, id),
    ensures
        after_command(m, id, CommandModel::CreateGame(name)) matches Ok((post, _)) && open_games_of(post)
            == open_games_upto(m, m.games.len()).push(
            (m.games.len() as usize, name, seq![post.players[id as int].name]),
        ),
{
    let post = after_command(m, id, CommandModel::CreateGame(name)).unwrap().0;
    assert forall|x: int| 0 <= x < m.players.len() implies #[trigger] post.players[x].name == m.players[x].name by {}
    assert forall|n: nat| n <= m.games.len() implies #[trigger] open_games_upto(post, n) == open_games_upto(m, n) by {
        lemma_open_games_prefix(m, post, n);
    }
    assert(names_of(post, seq![id]) =~= seq![post.players[id as int].name]);
    let n: nat = m.games.len();
    assert(post.games.len() == n + 1);
    assert(!post.games[n as int].started);
    assert(open_games_upto(post, (n + 1) as nat) == open_games_upto(post, n).push(
        (n as usize, name, names_of(post, seq![id])),
    ));
}

proof fn lemma_open_games_prefix(m: LobbyModel, post: LobbyModel, n: nat)
    requires
        n <= m.games.len(),
        n <= post.games.len(),
        forall|g: int| 0 <= g < n ==> #[trigger] post.games[g] == m.games[g],
        forall|g: int, k: int|
            0 <= g < n && 0 <= k < m.games[g].players.len() ==> #[trigger] post.players[m.games[g].players[k] as int].name
                == m.players[m.games[g].players[k] as int].name,
    ensures
        open_games_upto(post, n) == open_games_upto(m, n),
    decreases n,
{
    if n > 0 {
        lemma_open_games_prefix(m, post, (n - 1) as nat);
        let g = m.games[n - 1];
        assert(names_of(post, g.players) =~= names_of(m, g.players));
    }
}

/// A connected player in no game can always leave, whether or not they named themselves:
/// leaving changes nothing and tells no one, and closing their connection then takes them
/// out of the waiting room and leaves them disconnected.
pub proof fn lemma_free_player_can_leave(m: LobbyModel, id: usize)
    requires
        well_formed(m),
        live(m, id),
        m.players[id as int].game is None,
    ensures
        leave_ok(m, id),
        after_leave(m, id).0 == m,
        after_leave(m, id).1.len() == 0,
        !live(disconnected(m, id), id),
        !disconnected(m, id).waiting_room.contains(id),
{
    lemma_remove_value(m.waiting_room, id);
}

// ---------------------------------------------------------------------------------------
// Executable
// ---------------------------------------------------------------------------------------

impl Lobby {
    /// An empty lobby.
    pub fn new() -> (l: Lobby)
        ensures
            l@.players.len() == 0,
            l@.waiting_room.len() == 0,
            l@.games.len() == 0,
            well_formed(l@),
    {
        let l = Lobby { players: Vec::new(), waiting_room: Vec::new(), games: Vec::new() };
        assert(l@.players =~= Seq::<PlayerModel>::empty());
        assert(l@.games =~= Seq::<GameModel>::empty());
        l
    }

    /// The connected player that the token addresses.
    pub fn player_id(&self, token: usize) -> (res: Option<usize>)
        requires
            well_formed(self@),
        ensures
            res matches Some(id) ==> addresses(self@, token, id),
            res is None ==> forall|id: usize| !addresses(self@, token, id),
    {
        let mut i: usize = 0;
        while i < self.players.len()
            invariant
                i <= self.players.len(),
                forall|j: usize| j < i ==> !addresses(self@, token, j),
            decreases self.players.len() - i,
        {
            assert(self@.players[i as int] == self.players@[i as int]@);
            if self.players[i].connected && self.players[i].token == token {
                return Some(i);
            }
            i = i + 1;
        }
        None
    }

    /// Opens a connection: a player named "Noname", in no game and not in the waiting room.
    pub fn open(&mut self, token: usize)
        requires
            well_formed(old(self)@),
            forall|id: usize| !addresses(old(self)@, token, id),
        ensures
            final(self)@ == opened(old(self)@, token),
            well_formed(final(self)@),
    {
        let name = String::from_str("Noname");
        self.players.push(Player { token, name, game: None, connected: true });
        proof {
            reveal_strlit("Noname");
        }
        assert(self@.players =~= opened(old(self)@, token).players);
        proof {
            lemma_opened_well_formed(old(self)@, token);
        }
    }

    /// The names of the listed players.
    fn names_of_ids(&self, ids: &Vec<usize>) -> (names: Vec<String>)
        requires
            forall|k: int| 0 <= k < ids@.len() ==> #[trigger] ids@[k] < self@.players.len(),
        ensures
            string_views(names@) == names_of(self@, ids@),
    {
        let mut names: Vec<String> = Vec::new();
        let mut k: usize = 0;
        while k < ids.len()
            invariant
                k <= ids@.len(),
                forall|j: int| 0 <= j < ids@.len() ==> #[trigger] ids@[j] < self@.players.len(),
                string_views(names@) =~= names_of(self@, ids@.take(k as int)),
            decreases ids.len() - k,
        {
            let id: usize = ids[k];
            assert(self@.players[id as int] == self.players@[id as int]@);
            let name = self.players[id].name.clone();
            let ghost before = names@;
            names.push(name);
            assert(ids@.take(k + 1) =~= ids@.take(k as int).push(id));
            assert(string_views(names@) =~= string_views(before).push(name@));
            assert(names_of(self@, ids@.take(k + 1)) =~= names_of(self@, ids@.take(k as int)).push(
                self@.players[id as int].name,
            ));
            k = k + 1;
        }
        assert(ids@.take(ids@.len() as int) =~= ids@);
        names
    }

    /// Whether every listed player is known and connected.
    fn all_connected(&self, ids: &Vec<usize>) -> (b: bool)
        ensures
            b == all_live(self@, ids@),
    {
        let mut k: usize = 0;
        while k < ids.len()
            invariant
                k <= ids@.len(),
                forall|j: int| 0 <= j < k ==> live(self@, #[trigger] ids@[j]),
            decreases ids.len() - k,
        {
            let id: usize = ids[k];
            if id >= self.players.len() {
                return false;
            }
            assert(self@.players[id as int] == self.players@[id as int]@);
            if !self.players[id].connected {
                return false;
            }
            k = k + 1;
        }
        true
    }

    /// The games that wait to start: number, name and players' names.
    fn open_games(&self) -> (v: Vec<(usize, String, Vec<String>)>)
        requires
            well_formed(self@),
        ensures
            open_game_views(v@) == open_games_of(self@),
    {
        let mut v: Vec<(usize, String, Vec<String>)> = Vec::new();
        let mut i: usize = 0;
        while i < self.games.len()
            invariant
                i <= self.games@.len(),
                well_formed(self@),
                open_game_views(v@) =~= open_games_upto(self@, i as nat),
            decreases self.games.len() - i,
        {
            let game = &self.games[i];
            assert(self@.games[i as int] == game@);
            match &game.state {
                GameState::WaitingToStart => {
                    assert forall|k: int| 0 <= k < game.players@.len() implies #[trigger] game.players@[k]
                        < self@.players.len() by {
                        assert(self@.games[i as int].players[k] == game.players@[k]);
                    }
                    let names = self.names_of_ids(&game.players);
                    let entry = (i, game.name.clone(), names);
                    let ghost before = v@;
                    v.push(entry);
                    assert(open_game_views(v@) =~= open_game_views(before).push(
                        (entry.0, entry.1@, string_views(entry.2@)),
                    ));
                },
                GameState::Playing(_) => {},
            }
            i = i + 1;
        }
        v
    }

    /// Whether the player can be shown their view (see `view_ok`): the lookups that the view makes all find a connected player.
    pub fn client_state_ready(&self, id: usize) -> (b: bool)
        requires
            well_formed(self@),
        ensures
            b == view_ok(self@, id),
    {
        if id >= self.players.len() {
            return false;
        }
        assert(self@.players[id as int] == self.players@[id as int]@);
        if !self.players[id].connected {
            return false;
        }
        assert(self@.players[id as int].game == self.players@[id as int].game);
        match self.players[id].game {
            Some(g) => {
                assert(self@.games[g as int] == self.games@[g as int]@);
                self.all_connected(&self.games[g].players)
            },
            None => {
                if !self.all_connected(&self.waiting_room) {
                    return false;
                }
                let mut i: usize = 0;
                while i < self.games.len()
                    invariant
                        i <= self.games@.len(),
                        live(self@, id),
                        self@.players[id as int].game is None,
                        all_live(self@, self@.waiting_room),
                        forall|g: int|
                            0 <= g < i && !(#[trigger] self@.games[g]).started ==> all_live(
                                self@,
                                self@.games[g].players,
                            ),
                    decreases self.games.len() - i,
                {
                    assert(self@.games[i as int] == self.games@[i as int]@);
                    match &self.games[i].state {
                        GameState::WaitingToStart => {
                            assert(!self@.games[i as int].started);
                            if !self.all_connected(&self.games[i].players) {
                                return false;
                            }
                        },
                        GameState::Playing(_) => {},
                    }
                    i = i + 1;
                }
                true
            },
        }
    }

    /// The view the player is shown.
    pub fn client_state(&self, id: usize) -> (v: SetClientState)
        requires
            well_formed(self@),
            view_ok(self@, id),
        ensures
            v@ == view_of(self@, id),
    {
        let player = &self.players[id];
        assert(self@.players[id as int] == player@);
        assert(self@.players[id as int].game == player.game);
        match player.game {
            Some(g) => {
                let game = &self.games[g];
                assert(self@.games[g as int] == game@);
                assert forall|k: int| 0 <= k < game.players@.len() implies #[trigger] game.players@[k]
                    < self@.players.len() by {
                    assert(self@.games[g as int].players[k] == game.players@[k]);
                }
                SetClientState::UnstartedGame {
                    nickname: player.name.clone(),
                    game_name: game.name.clone(),
                    people_in_game: self.names_of_ids(&game.players),
                }
            },
            None => {
                SetClientState::WaitingRoom {
                    nickname: player.name.clone(),
                    waiting_room_people: self.names_of_ids(&self.waiting_room),
                    open_games: self.open_games(),
                }
            },
        }
    }

    /// Takes the player's record out, leaving a blank one in its place.
    fn take_player(&mut self, id: usize) -> (p: Player)
        requires
            id < old(self)@.players.len(),
        ensures
            p@ == old(self)@.players[id as int],
            final(self).players@.len() == old(self).players@.len(),
            forall|i: int| 0 <= i < old(self).players@.len() && i != id ==> #[trigger] final(self).players@[i] == old(self).players@[i],
            final(self).waiting_room == old(self).waiting_room,
            final(self).games == old(self).games,
    {
        let mut p = Player { token: 0, name: String::new(), game: None, connected: false };
        self.players.set_and_swap(id, &mut p);
        p
    }

    /// Puts a player's record back in place.
    fn put_player(&mut self, id: usize, p: Player)
        requires
            id < old(self)@.players.len(),
        ensures
            final(self)@ == (LobbyModel { players: old(self)@.players.update(id as int, p@), ..old(self)@ }),
            final(self).waiting_room == old(self).waiting_room,
            final(self).games == old(self).games,
    {
        self.players.set(id, p);
        assert(self@.players =~= old(self)@.players.update(id as int, p@));
    }

    /// Removes the player from the waiting room, if there.
    fn leave_waiting_room(&mut self, id: usize)
        ensures
            final(self)@ == (LobbyModel { waiting_room: old(self)@.waiting_room.remove_value(id), ..old(self)@ }),
            final(self).players == old(self).players,
            final(self).games == old(self).games,
    {
        let ghost w = self.waiting_room@;
        proof {
            w.index_of_first_ensures(id);
        }
        let mut k: usize = 0;
        while k < self.waiting_room.len()
            invariant
                w == self.waiting_room@,
                self.players == old(self).players,
                self.games == old(self).games,
                w == old(self)@.waiting_room,
                k <= w.len(),
                forall|j: int| 0 <= j < k ==> w[j] != id,
            decreases w.len() - k,
        {
            if self.waiting_room[k] == id {
                proof {
                    w.index_of_first_ensures(id);
                    let f: int = w.index_of_first(id).unwrap();
                    assert(f == k);
                }
                self.waiting_room.remove(k);
                return;
            }
            k = k + 1;
        }
        assert(!w.contains(id));
    }

    /// Appends `src` to `dst`.
    fn append_ids(dst: &mut Vec<usize>, src: &Vec<usize>)
        ensures
            final(dst)@ == old(dst)@ + src@,
    {
        let mut k: usize = 0;
        while k < src.len()
            invariant
                k <= src@.len(),
                dst@ =~= old(dst)@ + src@.take(k as int),
            decreases src.len() - k,
        {
            dst.push(src[k]);
            assert(src@.take(k + 1) =~= src@.take(k as int).push(src@[k as int]));
            k = k + 1;
        }
        assert(src@.take(src@.len() as int) =~= src@);
    }

    /// Carries out a request of a connected player, returning the players to be sent their
    /// view, in order. Naming oneself enters the waiting room; entering a game adds the
    /// player to it and leaves the waiting room; creating a game does the same with a new
    /// game, numbered after all others. Entering a game that does not exist is refused and
    /// changes nothing.
    pub fn apply(&mut self, id: usize, cmd: Command) -> (res: Result<Vec<usize>, LobbyError>)
        requires
            well_formed(old(self)@),
            live(old(self)@, id),
        ensures
            match after_command(old(self)@, id, cmd@) {
                Ok((post, to)) => res matches Ok(v) && v@ == to && final(self)@ == post,
                Err(g) => res == Err::<Vec<usize>, LobbyError>(LobbyError::InvalidReference(g))
                    && final(self)@ == old(self)@,
            },
            well_formed(final(self)@),
    {
        proof {
            lemma_after_command_well_formed(self@, id, cmd@);
        }
        let ghost m = self@;
        match cmd {
            Command::SetName(name) => {
                let mut p = self.take_player(id);
                p.name = name;
                self.put_player(id, p);
                let ghost mid = self@;
                let mut present = false;
                let mut k: usize = 0;
                while k < self.waiting_room.len()
                    invariant
                        self@ == mid,
                        k <= self.waiting_room@.len(),
                        present <==> exists|j: int| 0 <= j < k && self.waiting_room@[j] == id,
                    decreases self.waiting_room.len() - k,
                {
                    if self.waiting_room[k] == id {
                        present = true;
                    }
                    k = k + 1;
                }
                if !present {
                    self.waiting_room.push(id);
                }
                assert(present == m.waiting_room.contains(id));
                assert(self@.players =~= m.players.update(id as int, PlayerModel { name: cmd@->SetName_0, ..m.players[id as int] }));
                assert(self@.waiting_room == (if m.waiting_room.contains(id) { m.waiting_room } else { m.waiting_room.push(id) }));
                assert(self@.games == m.games);
                assert(self@ == after_command(m, id, cmd@).unwrap().0);
                let mut to: Vec<usize> = Vec::new();
                Self::append_ids(&mut to, &self.waiting_room);
                assert(to@ =~= self.waiting_room@);
                assert(after_command(m, id, cmd@) matches Ok((post, t)) && t == to@ && post == self@);
                assert(well_formed(self@));
                Ok(to)
            },
            Command::EnterGame(g) => {
                if g >= self.games.len() {
                    return Err(LobbyError::InvalidReference(g));
                }
                self.leave_waiting_room(id);
                let mut p = self.take_player(id);
                p.game = Some(g);
                self.put_player(id, p);
                let mut game = Game { players: Vec::new(), state: GameState::WaitingToStart, name: String::new() };
                self.games.set_and_swap(g, &mut game);
                game.players.push(id);
                self.games.set(g, game);
                assert(self@.games =~= m.games.update(
                    g as int,
                    GameModel { players: m.games[g as int].players.push(id), ..m.games[g as int] },
                ));
                let mut to: Vec<usize> = Vec::new();
                to.push(id);
                Self::append_ids(&mut to, &self.waiting_room);
                Self::append_ids(&mut to, &self.games[g].players);
                assert(self@.players =~= after_command(m, id, cmd@).unwrap().0.players);
                assert(self@.waiting_room =~= after_command(m, id, cmd@).unwrap().0.waiting_room);
                assert(self@.games =~= after_command(m, id, cmd@).unwrap().0.games);
                assert(after_command(m, id, cmd@) matches Ok((post, t)) && t == to@ && post == self@);
                Ok(to)
            },
            Command::CreateGame(name) => {
                let g: usize = self.games.len();
                let mut members: Vec<usize> = Vec::new();
                members.push(id);
                self.games.push(Game { players: members, state: GameState::WaitingToStart, name });
                let mut p = self.take_player(id);
                p.game = Some(g);
                self.put_player(id, p);
                self.leave_waiting_room(id);
                let mut to: Vec<usize> = Vec::new();
                Self::append_ids(&mut to, &self.waiting_room);
                to.push(id);
                assert(self@.players =~= after_command(m, id, cmd@).unwrap().0.players);
                assert(self@.waiting_room =~= after_command(m, id, cmd@).unwrap().0.waiting_room);
                assert(self@.games =~= after_command(m, id, cmd@).unwrap().0.games);
                assert(after_command(m, id, cmd@) matches Ok((post, t)) && t == to@ && post == self@);
                Ok(to)
            },
        }
    }

    /// Whether the player can leave their game (see `leave_ok`).
    pub fn can_leave(&self, id: usize) -> (b: bool)
        requires
            well_formed(self@),
        ensures
            b == leave_ok(self@, id),
    {
        if id >= self.players.len() {
            return false;
        }
        assert(self@.players[id as int] == self.players@[id as int]@);
        if !self.players[id].connected {
            return false;
        }
        assert(self@.players[id as int].game == self.players@[id as int].game);
        match self.players[id].game {
            None => true,
            Some(g) => {
                let game = &self.games[g];
                assert(self@.games[g as int] == game@);
                let ghost members = game.players@;
                if game.players.len() <= 1 {
                    return false;
                }
                match &game.state {
                    GameState::Playing(_) => {
                        return false;
                    },
                    GameState::WaitingToStart => {},
                }
                let mut k: usize = 0;
                while k < game.players.len()
                    invariant
                        g < self@.games.len(),
                        live(self@, id),
                        self@.players[id as int].game == Some(g),
                        members.len() > 1,
                        !self@.games[g as int].started,
                        members == game.players@,
                        members == self@.games[g as int].players,
                        k <= members.len(),
                        !members.take(k as int).contains(id),
                        forall|j: int| 0 <= j < k ==> live(self@, #[trigger] members[j]),
                    decreases members.len() - k,
                {
                    let other: usize = game.players[k];
                    if other == id {
                        assert(members.contains(id));
                        assert forall|j: int|
                            0 <= j < members.len() && !members.take(j).contains(id) implies live(
                            self@,
                            #[trigger] members[j],
                        ) by {
                            if j > k {
                                assert(members.take(j)[k as int] == id);
                                assert(members.take(j).contains(id));
                            }
                        }
                        return true;
                    }
                    if other >= self.players.len() {
                        assert(!members.take(k + 1).contains(id)) by {
                            assert(members.take(k + 1) =~= members.take(k as int).push(other));
                        }
                        return false;
                    }
                    assert(self@.players[other as int] == self.players@[other as int]@);
                    if !self.players[other].connected {
                        assert(!members.take(k + 1).contains(id)) by {
                            assert(members.take(k + 1) =~= members.take(k as int).push(other));
                        }
                        return false;
                    }
                    assert(members.take(k + 1) =~= members.take(k as int).push(other));
                    k = k + 1;
                }
                assert(members.take(members.len() as int) =~= members);
                false
            },
        }
    }

    /// The player leaves the game they joined last, as a closing connection does; returns
    /// the players that remain in it, to be sent their view.
    pub fn leave_game(&mut self, id: usize) -> (to: Vec<usize>)
        requires
            well_formed(old(self)@),
            leave_ok(old(self)@, id),
        ensures
            final(self)@ == after_leave(old(self)@, id).0,
            to@ == after_leave(old(self)@, id).1,
            well_formed(final(self)@),
    {
        proof {
            lemma_after_leave_well_formed(self@, id);
        }
        let ghost m = self@;
        assert(self@.players[id as int] == self.players@[id as int]@);
        match self.players[id].game {
            None => {
                let to: Vec<usize> = Vec::new();
                assert(to@ =~= Seq::<usize>::empty());
                to
            },
            Some(g) => {
                let mut game = Game { players: Vec::new(), state: GameState::WaitingToStart, name: String::new() };
                self.games.set_and_swap(g, &mut game);
                assert(m.games[g as int] == game@);
                let ghost members = game.players@;
                proof {
                    members.index_of_first_ensures(id);
                }
                let mut k: usize = 0;
                while k < game.players.len()
                    invariant
                        members == game.players@,
                        members.contains(id),
                        members.index_of_first(id) matches Some(f) && k <= f && f < members.len(),
                    ensures
                        k < members.len(),
                        members[k as int] == id,
                        members.index_of_first(id) matches Some(f) && k <= f,
                    decreases members.len() - k,
                {
                    proof {
                        members.index_of_first_ensures(id);
                    }
                    if game.players[k] == id {
                        break;
                    }
                    k = k + 1;
                }
                proof {
                    members.index_of_first_ensures(id);
                }
                assert(members.index_of_first(id) == Some(k as int));
                game.players.remove(k);
                let mut to: Vec<usize> = Vec::new();
                Self::append_ids(&mut to, &game.players);
                self.games.set(g, game);
                assert(self@.games =~= after_leave(m, id).0.games);
                to
            },
        }
    }

    /// Closes the player's connection: they leave the waiting room and are no longer
    /// connected.
    pub fn disconnect(&mut self, id: usize)
        requires
            well_formed(old(self)@),
            live(old(self)@, id),
        ensures
            final(self)@ == disconnected(old(self)@, id),
            well_formed(final(self)@),
    {
        proof {
            lemma_disconnected_well_formed(self@, id);
        }
        self.leave_waiting_room(id);
        let mut p = self.take_player(id);
        p.connected = false;
        self.put_player(id, p);
        assert(self@.players =~= disconnected(old(self)@, id).players);
    }

    /// The token of the player's connection.
    pub fn token_of(&self, id: usize) -> (token: usize)
        requires
            id < self@.players.len(),
        ensures
            token == self@.players[id as int].token,
    {
        assert(self@.players[id as int] == self.players@[id as int]@);
        self.players[id].token
    }

    /// The player's name.
    pub fn name_of(&self, id: usize) -> (name: String)
        requires
            id < self@.players.len(),
        ensures
            name@ == self@.players[id as int].name,
    {
        assert(self@.players[id as int] == self.players@[id as int]@);
        self.players[id].name.clone()
    }
}

} // verus!
