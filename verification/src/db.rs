//! The tables of players and games, and the matchmaking policy that fills
//! them.

use vstd::prelude::*;

use crate::board::{
    copy_board, empty_board, empty_grid, grid_of, is_well_formed, well_formed, Grid, Squares,
};

verus! {

/// A registered player.
#[derive(Clone, Debug)]
pub struct Player {
    pub id: i32,
    pub name: String,
}

/// One game: its board, who plays `Red`, who plays `Black`, and whether it
/// is over. The first joiner plays `Red`.
#[derive(Clone, Debug)]
pub struct GameState {
    pub id: i32,
    pub squares: Squares,
    pub player_red_id: Option<i32>,
    pub player_black_id: Option<i32>,
    pub finished: bool,
}

/// Why the tables refused a request.
#[derive(Clone, Copy, Debug, PartialEq, Eq, Structural)]
pub enum StoreError {
    /// No player has this id.
    UnknownPlayer,
    /// No game has this id.
    UnknownGame,
    /// The table holds the largest id there is: no row can be added.
    OutOfIds,
}

/// The model of a player.
pub struct PlayerModel {
    pub id: i32,
    pub name: Seq<char>,
}

/// The model of a game.
pub struct GameModel {
    pub id: i32,
    pub grid: Grid,
    pub player_red_id: Option<i32>,
    pub player_black_id: Option<i32>,
    pub finished: bool,
}

/// The model of the tables: the rows of each, in the order they were added.
pub struct DbModel {
    pub players: Seq<PlayerModel>,
    pub games: Seq<GameModel>,
}

impl View for Player {
    type V = PlayerModel;

    open spec fn view(&self) -> PlayerModel {
        PlayerModel { id: self.id, name: self.name@ }
    }
}

impl View for GameState {
    type V = GameModel;

    open spec fn view(&self) -> GameModel {
        GameModel {
            id: self.id,
            grid: grid_of(&self.squares),
            player_red_id: self.player_red_id,
            player_black_id: self.player_black_id,
            finished: self.finished,
        }
    }
}

impl GameModel {
    /// The game is not over and `player` holds one of its two seats.
    pub open spec fn active_for(self, player: i32) -> bool {
        !self.finished && (self.player_red_id == Some(player) || self.player_black_id == Some(
            player,
        ))
    }

    /// The game waits for a second player: `Red` is seated, `Black` is not.
    pub open spec fn waiting(self) -> bool {
        self.player_red_id is Some && self.player_black_id is None
    }

    /// The game with `player` seated as `Black`.
    pub open spec fn joined_by(self, player: i32) -> GameModel {
        GameModel { player_black_id: Some(player), ..self }
    }

    /// The game with the board and the `finished` flag of `snapshot`, and
    /// its own id and seats.
    pub open spec fn saved(self, snapshot: GameModel) -> GameModel {
        GameModel { grid: snapshot.grid, finished: snapshot.finished, ..self }
    }
}

/// A fresh game with `player` as `Red` and an empty board.
pub open spec fn new_game(id: i32, player: i32) -> GameModel {
    GameModel {
        id,
        grid: empty_grid(),
        player_red_id: Some(player),
        player_black_id: None,
        finished: false,
    }
}

impl DbModel {
    /// The tables with no rows.
    pub open spec fn empty() -> DbModel {
        DbModel { players: Seq::empty(), games: Seq::empty() }
    }

    /// A player with this id is registered.
    pub open spec fn has_player(self, id: i32) -> bool {
        exists|k: int| 0 <= k < self.players.len() && (#[trigger] self.players[k]).id == id
    }

    /// The row of the player with this id.
    pub open spec fn player(self, id: i32) -> PlayerModel {
        self.players[choose|k: int| 0 <= k < self.players.len() && (#[trigger] self.players[k]).id
            == id]
    }

    /// A player with this name is registered.
    pub open spec fn has_name(self, name: Seq<char>) -> bool {
        exists|k: int| 0 <= k < self.players.len() && (#[trigger] self.players[k]).name == name
    }

    /// The row of the player with this name.
    pub open spec fn named(self, name: Seq<char>) -> PlayerModel {
        self.players[choose|k: int|
            0 <= k < self.players.len() && (#[trigger] self.players[k]).name == name]
    }

    /// A game with this id is stored.
    pub open spec fn has_game(self, id: i32) -> bool {
        exists|k: int| 0 <= k < self.games.len() && (#[trigger] self.games[k]).id == id
    }

    /// Where the game with this id stands in the table.
    pub open spec fn game_index(self, id: i32) -> int {
        choose|k: int| 0 <= k < self.games.len() && (#[trigger] self.games[k]).id == id
    }

    /// `k` is the oldest game that is not over and seats `player`.
    pub open spec fn is_first_active(self, player: i32, k: int) -> bool {
        &&& 0 <= k < self.games.len()
        &&& self.games[k].active_for(player)
        &&& forall|n: int| 0 <= n < k ==> !(#[trigger] self.games[n]).active_for(player)
    }

    /// `k` is the oldest game that waits for a second player.
    pub open spec fn is_first_waiting(self, k: int) -> bool {
        &&& 0 <= k < self.games.len()
        &&& self.games[k].waiting()
        &&& forall|n: int| 0 <= n < k ==> !(#[trigger] self.games[n]).waiting()
    }

    /// Some game is not over and seats `player`.
    pub open spec fn has_active(self, player: i32) -> bool {
        exists|k: int| self.is_first_active(player, k)
    }

    /// Some game waits for a second player.
    pub open spec fn has_waiting(self) -> bool {
        exists|k: int| self.is_first_waiting(k)
    }

    /// The oldest game that is not over and seats `player`.
    pub open spec fn first_active(self, player: i32) -> int {
        choose|k: int| self.is_first_active(player, k)
    }

    /// The oldest game that waits for a second player.
    pub open spec fn first_waiting(self) -> int {
        choose|k: int| self.is_first_waiting(k)
    }

    /// The id that the next player gets: one more than the newest one's.
    pub open spec fn next_player_id(self) -> int {
        if self.players.len() == 0 {
            1
        } else {
            self.players.last().id + 1
        }
    }

    /// The id that the next game gets: one more than the newest one's.
    pub open spec fn next_game_id(self) -> int {
        if self.games.len() == 0 {
            1
        } else {
            self.games.last().id + 1
        }
    }

    /// What holds of the tables at all times: ids grow with the rows, no
    /// two players share a name, every board is a full grid, and every
    /// seat is taken by a registered player.
    pub open spec fn valid(self) -> bool {
        &&& forall|a: int, b: int|
            0 <= a < b < self.players.len() ==> (#[trigger] self.players[a]).id < (
            #[trigger] self.players[b]).id
        &&& forall|a: int, b: int|
            0 <= a < b < self.players.len() ==> (#[trigger] self.players[a]).name != (
            #[trigger] self.players[b]).name
        &&& forall|a: int, b: int|
            0 <= a < b < self.games.len() ==> (#[trigger] self.games[a]).id < (
            #[trigger] self.games[b]).id
        &&& forall|k: int| 0 <= k < self.games.len() ==> well_formed((#[trigger] self.games[k]).grid)
        &&& forall|k: int, p: i32|
            0 <= k < self.games.len() && (#[trigger] self.games[k]).player_red_id == Some(p)
                ==> #[trigger] self.has_player(p)
        &&& forall|k: int, p: i32|
            0 <= k < self.games.len() && (#[trigger] self.games[k]).player_black_id == Some(p)
                ==> #[trigger] self.has_player(p)
    }

    /// The tables after `player` asks for a game, and the game they get.
    /// A game that is not over and seats the player is handed back as it
    /// is, the oldest first. Else the oldest game that waits gets the player
    /// as `Black`. Else a new game starts with the player as `Red`.
    pub open spec fn matched(self, player: i32) -> (DbModel, GameModel) {
        if self.has_active(player) {
            (self, self.games[self.first_active(player)])
        } else if self.has_waiting() {
            let k = self.first_waiting();
            let game = self.games[k].joined_by(player);
            (DbModel { games: self.games.update(k, game), ..self }, game)
        } else {
            let game = new_game(self.next_game_id() as i32, player);
            (DbModel { games: self.games.push(game), ..self }, game)
        }
    }

    /// The tables after a lookup by name that adds the player where the
    /// name is new, and the player's row.
    pub open spec fn upserted(self, name: Seq<char>) -> (DbModel, PlayerModel) {
        if self.has_name(name) {
            (self, self.named(name))
        } else {
            let player = PlayerModel { id: self.next_player_id() as i32, name };
            (DbModel { players: self.players.push(player), ..self }, player)
        }
    }
}

impl Player {
    /// A copy of the row.
    pub fn snapshot(&self) -> (copy: Player)
        ensures
            copy@ == self@,
    {
        Player { id: self.id, name: self.name.clone() }
    }
}

impl GameState {
    /// A copy of the game, board and all.
    pub fn snapshot(&self) -> (copy: GameState)
        ensures
            copy@ == self@,
    {
        GameState {
            id: self.id,
            squares: copy_board(&self.squares),
            player_red_id: self.player_red_id,
            player_black_id: self.player_black_id,
            finished: self.finished,
        }
    }
}

/// The tables of players and games.
#[derive(Debug)]
pub struct Db {
    players: Vec<Player>,
    games: Vec<GameState>,
}

impl View for Db {
    type V = DbModel;

    closed spec fn view(&self) -> DbModel {
        DbModel {
            players: Seq::new(self.players@.len(), |k: int| self.players@[k]@),
            games: Seq::new(self.games@.len(), |k: int| self.games@[k]@),
        }
    }
}

impl Db {
    /// What holds of the tables at all times; see `DbModel::valid`.
    pub open spec fn wf(&self) -> bool {
        self@.valid()
    }

    /// Tables with no rows, as they stand when the server starts.
    pub fn db_init() -> (db: Db)
        ensures
            db@ == DbModel::empty(),
            db.wf(),
    {
        let db = Db { players: Vec::new(), games: Vec::new() };
        assert(db@.players =~= Seq::empty());
        assert(db@.games =~= Seq::empty());
        db
    }

    /// Where the player with this id stands in the table.
    fn find_player(&self, id: i32) -> (found: Option<usize>)
        ensures
            found is Some <==> self@.has_player(id),
            found matches Some(k) ==> k < self@.players.len() && self@.players[k as int].id == id,
    {
        let mut k: usize = 0;
        while k < self.players.len()
            invariant
                k <= self.players@.len(),
                forall|n: int| 0 <= n < k ==> (#[trigger] self@.players[n]).id != id,
            decreases self.players@.len() - k,
        {
            if self.players[k].id == id {
                assert(self@.players[k as int].id == id);
                return Some(k);
            }
            k += 1;
        }
        None
    }

    /// The player with this id, if one is registered.
    pub fn get_player_by_id(&self, id: i32) -> (found: Option<Player>)
        requires
            self.wf(),
        ensures
            found is Some <==> self@.has_player(id),
            found matches Some(player) ==> player@ == self@.player(id),
    {
        match self.find_player(id) {
            Some(k) => {
                proof {
                    self@.lemma_player(k as int);
                }
                Some(self.players[k].snapshot())
            },
            None => None,
        }
    }

    /// The player with this name; a player is added where the name is new.
    /// Fails only where a row would be needed and the ids have run out.
    pub fn get_player(&mut self, username: &String) -> (result: Result<Player, StoreError>)
        requires
            old(self).wf(),
        ensures
            final(self).wf(),
            result is Err <==> (!old(self)@.has_name(username@) && old(self)@.next_player_id()
                > i32::MAX),
            result matches Ok(player) ==> (final(self)@, player@) == old(self)@.upserted(
                username@,
            ),
            result matches Err(e) ==> e == StoreError::OutOfIds && final(self)@ == old(self)@,
    {
        let mut k: usize = 0;
        while k < self.players.len()
            invariant
                self.wf(),
                self@ == old(self)@,
                k <= self.players@.len(),
                forall|n: int| 0 <= n < k ==> (#[trigger] self@.players[n]).name != username@,
            decreases self.players@.len() - k,
        {
            if self.players[k].name == *username {
                proof {
                    assert(self@.players[k as int].name == username@);
                    self@.lemma_named(k as int);
                }
                return Ok(self.players[k].snapshot());
            }
            k += 1;
        }
        let count = self.players.len();
        let id: i32 = if count == 0 {
            1
        } else {
            let last = self.players[count - 1].id;
            assert(self@.players.last().id == last);
            if last == i32::MAX {
                return Err(StoreError::OutOfIds);
            }
            last + 1
        };
        let ghost before = self@;
        let player = Player { id, name: username.clone() };
        let copy = player.snapshot();
        self.players.push(player);
        proof {
            assert(self@.players =~= before.players.push(copy@));
            assert(self@.games =~= before.games);
            before.lemma_add_player(copy@);
        }
        Ok(copy)
    }

    /// Matchmaking. A game that is not over and seats the player is handed
    /// back as it is. Else the oldest game that waits for a second player
    /// gets this one as `Black`. Else a new game starts, with an empty board
    /// and the player as `Red`.
    pub fn get_game(&mut self, player_id: i32) -> (result: Result<GameState, StoreError>)
        requires
            old(self).wf(),
        ensures
            final(self).wf(),
            result is Ok <==> (old(self)@.has_player(player_id) && (old(self)@.has_active(
                player_id,
            ) || old(self)@.has_waiting() || old(self)@.next_game_id() <= i32::MAX)),
            result matches Ok(game) ==> (final(self)@, game@) == old(self)@.matched(player_id),
            result is Err ==> final(self)@ == old(self)@,
            result matches Err(e) ==> e == (if old(self)@.has_player(player_id) {
                StoreError::OutOfIds
            } else {
                StoreError::UnknownPlayer
            }),
    {
        let ghost before = self@;
        if self.find_player(player_id).is_none() {
            return Err(StoreError::UnknownPlayer);
        }
        let mut k: usize = 0;
        while k < self.games.len()
            invariant
                before == self@,
                before == old(self)@,
                before.valid(),
                before.has_player(player_id),
                k <= self.games@.len(),
                forall|n: int| 0 <= n < k ==> !(#[trigger] before.games[n]).active_for(player_id),
            decreases self.games@.len() - k,
        {
            let game = &self.games[k];
            assert(game@ == before.games[k as int]);
            if !game.finished && (game.player_red_id == Some(player_id) || game.player_black_id
                == Some(player_id)) {
                proof {
                    before.lemma_first_active(player_id, k as int);
                }
                return Ok(game.snapshot());
            }
            k += 1;
        }
        proof {
            before.lemma_no_active(player_id);
        }
        let mut k: usize = 0;
        while k < self.games.len()
            invariant
                before == self@,
                before == old(self)@,
                before.valid(),
                before.has_player(player_id),
                !before.has_active(player_id),
                k <= self.games@.len(),
                forall|n: int| 0 <= n < k ==> !(#[trigger] before.games[n]).waiting(),
            decreases self.games@.len() - k,
        {
            let game = &self.games[k];
            assert(game@ == before.games[k as int]);
            if game.player_red_id.is_some() && game.player_black_id.is_none() {
                proof {
                    before.lemma_first_waiting(k as int);
                }
                self.games[k].player_black_id = Some(player_id);
                let joined = self.games[k].snapshot();
                proof {
                    assert(self@.games =~= before.games.update(
                        k as int,
                        before.games[k as int].joined_by(player_id),
                    ));
                    assert(self@.players =~= before.players);
                    before.lemma_join(k as int, player_id);
                }
                return Ok(joined);
            }
            k += 1;
        }
        proof {
            before.lemma_no_waiting();
        }
        let count = self.games.len();
        let id: i32 = if count == 0 {
            1
        } else {
            let last = self.games[count - 1].id;
            assert(before.games.last().id == last);
            if last == i32::MAX {
                return Err(StoreError::OutOfIds);
            }
            last + 1
        };
        let game = GameState {
            id,
            squares: empty_board(),
            player_red_id: Some(player_id),
            player_black_id: None,
            finished: false,
        };
        let created = game.snapshot();
        self.games.push(game);
        proof {
            assert(self@.games =~= before.games.push(new_game(id, player_id)));
            assert(self@.players =~= before.players);
            before.lemma_add_game(new_game(id, player_id));
        }
        Ok(created)
    }

    /// Stores the board and the `finished` flag of `game` in the row with
    /// its id. The row keeps its seats.
    pub fn save_game(&mut self, game: GameState) -> (result: Result<(), StoreError>)
        requires
            old(self).wf(),
            well_formed(grid_of(&game.squares)),
        ensures
            final(self).wf(),
            result is Ok <==> old(self)@.has_game(game.id),
            result is Ok ==> final(self)@ == (DbModel {
                games: old(self)@.games.update(
                    old(self)@.game_index(game.id),
                    old(self)@.games[old(self)@.game_index(game.id)].saved(game@),
                ),
                ..old(self)@
            }),
            result matches Err(e) ==> e == StoreError::UnknownGame && final(self)@ == old(self)@,
    {
        let ghost before = self@;
        let mut k: usize = 0;
        while k < self.games.len()
            invariant
                before == self@,
                before == old(self)@,
                before.valid(),
                well_formed(grid_of(&game.squares)),
                k <= self.games@.len(),
                forall|n: int| 0 <= n < k ==> (#[trigger] before.games[n]).id != game.id,
            decreases self.games@.len() - k,
        {
            if self.games[k].id == game.id {
                proof {
                    assert(before.games[k as int].id == game.id);
                    before.lemma_game_index(k as int);
                }
                self.games[k].finished = game.finished;
                self.games[k].squares = game.squares;
                proof {
                    assert(self@.games =~= before.games.update(
                        k as int,
                        before.games[k as int].saved(game@),
                    ));
                    assert(self@.players =~= before.players);
                    before.lemma_save(k as int, game@);
                }
                return Ok(());
            }
            k += 1;
        }
        Err(StoreError::UnknownGame)
    }
}

impl DbModel {
    /// Ids tell players apart.
    pub proof fn lemma_player(self, k: int)
        requires
            self.valid(),
            0 <= k < self.players.len(),
        ensures
            self.has_player(self.players[k].id),
            self.player(self.players[k].id) == self.players[k],
    {
        let id = self.players[k].id;
        let c = choose|c: int| 0 <= c < self.players.len() && (#[trigger] self.players[c]).id == id;
        if c < k {
            assert(self.players[c].id < self.players[k].id);
        } else if k < c {
            assert(self.players[k].id < self.players[c].id);
        }
    }

    /// Names tell players apart.
    pub proof fn lemma_named(self, k: int)
        requires
            self.valid(),
            0 <= k < self.players.len(),
        ensures
            self.has_name(self.players[k].name),
            self.named(self.players[k].name) == self.players[k],
    {
        let name = self.players[k].name;
        let c = choose|c: int|
            0 <= c < self.players.len() && (#[trigger] self.players[c]).name == name;
        if c < k {
            assert(self.players[c].name != self.players[k].name);
        } else if k < c {
            assert(self.players[k].name != self.players[c].name);
        }
    }

    /// Ids tell games apart.
    pub proof fn lemma_game_index(self, k: int)
        requires
            self.valid(),
            0 <= k < self.games.len(),
        ensures
            self.has_game(self.games[k].id),
            self.game_index(self.games[k].id) == k,
    {
        let id = self.games[k].id;
        let c = choose|c: int| 0 <= c < self.games.len() && (#[trigger] self.games[c]).id == id;
        if c < k {
            assert(self.games[c].id < self.games[k].id);
        } else if k < c {
            assert(self.games[k].id < self.games[c].id);
        }
    }

    /// The oldest active game of a player is the one matchmaking picks.
    pub proof fn lemma_first_active(self, player: i32, k: int)
        requires
            self.is_first_active(player, k),
        ensures
            self.has_active(player),
            self.first_active(player) == k,
    {
        let c = self.first_active(player);
        assert(self.is_first_active(player, c));
        if c < k {
            assert(!self.games[c].active_for(player));
        } else if k < c {
            assert(!self.games[k].active_for(player));
        }
    }

    /// The oldest waiting game is the one matchmaking picks.
    pub proof fn lemma_first_waiting(self, k: int)
        requires
            self.is_first_waiting(k),
        ensures
            self.has_waiting(),
            self.first_waiting() == k,
    {
        let c = self.first_waiting();
        assert(self.is_first_waiting(c));
        if c < k {
            assert(!self.games[c].waiting());
        } else if k < c {
            assert(!self.games[k].waiting());
        }
    }

    /// Where no game is active for a player, matchmaking finds none.
    pub proof fn lemma_no_active(self, player: i32)
        requires
            forall|n: int| 0 <= n < self.games.len() ==> !(#[trigger] self.games[n]).active_for(
                player,
            ),
        ensures
            !self.has_active(player),
    {
        if self.has_active(player) {
            let c = self.first_active(player);
            assert(self.games[c].active_for(player));
        }
    }

    /// Where no game waits, matchmaking finds none.
    pub proof fn lemma_no_waiting(self)
        requires
            forall|n: int| 0 <= n < self.games.len() ==> !(#[trigger] self.games[n]).waiting(),
        ensures
            !self.has_waiting(),
    {
        if self.has_waiting() {
            let c = self.first_waiting();
            assert(self.games[c].waiting());
        }
    }

    /// Adding a player with a new name and the next id keeps the tables
    /// valid.
    proof fn lemma_add_player(self, player: PlayerModel)
        requires
            self.valid(),
            !self.has_name(player.name),
            player.id == self.next_player_id(),
        ensures
            (DbModel { players: self.players.push(player), ..self }).valid(),
    {
        let after = DbModel { players: self.players.push(player), ..self };
        let n = self.players.len() as int;
        assert forall|a: int, b: int| 0 <= a < b < after.players.len() implies (
        #[trigger] after.players[a]).id < (#[trigger] after.players[b]).id by {
            if b == n && a < n - 1 {
                assert(self.players[a].id < self.players[n - 1].id);
            }
        }
        assert forall|a: int, b: int| 0 <= a < b < after.players.len() implies (
        #[trigger] after.players[a]).name != (#[trigger] after.players[b]).name by {
            if b == n {
                assert(self.players[a].name != player.name);
            }
        }
        self.lemma_players_kept(after);
    }

    /// Tables that keep the players keep every seat taken.
    proof fn lemma_players_kept(self, after: DbModel)
        requires
            forall|k: int|
                0 <= k < self.players.len() ==> k < after.players.len() && (
                #[trigger] after.players[k]) == self.players[k],
        ensures
            forall|p: i32| self.has_player(p) ==> #[trigger] after.has_player(p),
    {
        assert forall|p: i32| self.has_player(p) implies #[trigger] after.has_player(p) by {
            let k = choose|k: int| 0 <= k < self.players.len() && (#[trigger] self.players[k]).id
                == p;
            assert(after.players[k].id == p);
        }
    }

    /// Seating a registered player as `Black` keeps the tables valid.
    proof fn lemma_join(self, k: int, player: i32)
        requires
            self.valid(),
            0 <= k < self.games.len(),
            self.has_player(player),
        ensures
            (DbModel {
                games: self.games.update(k, self.games[k].joined_by(player)),
                ..self
            }).valid(),
    {
        let after = DbModel {
            games: self.games.update(k, self.games[k].joined_by(player)),
            ..self
        };
        self.lemma_players_kept(after);
        assert forall|n: int, p: i32|
            0 <= n < after.games.len() && (#[trigger] after.games[n]).player_red_id == Some(
                p,
            ) implies #[trigger] after.has_player(p) by {
            assert(self.games[n].player_red_id == Some(p));
            assert(self.has_player(p));
        }
        assert forall|n: int, p: i32|
            0 <= n < after.games.len() && (#[trigger] after.games[n]).player_black_id == Some(
                p,
            ) implies #[trigger] after.has_player(p) by {
            if n != k {
                assert(self.games[n].player_black_id == Some(p));
                assert(self.has_player(p));
            }
        }
        assert forall|a: int, b: int| 0 <= a < b < after.games.len() implies (
        #[trigger] after.games[a]).id < (#[trigger] after.games[b]).id by {
            assert(self.games[a].id < self.games[b].id);
        }
        assert forall|n: int| 0 <= n < after.games.len() implies well_formed(
            (#[trigger] after.games[n]).grid,
        ) by {
            assert(well_formed(self.games[n].grid));
        }
    }

    /// Adding a well-formed game of registered players with the next id
    /// keeps the tables valid.
    proof fn lemma_add_game(self, game: GameModel)
        requires
            self.valid(),
            game.id == self.next_game_id(),
            well_formed(game.grid),
            game.player_red_id matches Some(p) ==> self.has_player(p),
            game.player_black_id matches Some(p) ==> self.has_player(p),
        ensures
            (DbModel { games: self.games.push(game), ..self }).valid(),
    {
        let after = DbModel { games: self.games.push(game), ..self };
        let n = self.games.len() as int;
        self.lemma_players_kept(after);
        assert forall|a: int, b: int| 0 <= a < b < after.games.len() implies (
        #[trigger] after.games[a]).id < (#[trigger] after.games[b]).id by {
            if b == n {
                if a < n - 1 {
                    assert(self.games[a].id < self.games[n - 1].id);
                }
            } else {
                assert(self.games[a].id < self.games[b].id);
            }
        }
        assert forall|k: int| 0 <= k < after.games.len() implies well_formed(
            (#[trigger] after.games[k]).grid,
        ) by {
            if k < n {
                assert(well_formed(self.games[k].grid));
            }
        }
        assert forall|k: int, p: i32|
            0 <= k < after.games.len() && (#[trigger] after.games[k]).player_red_id == Some(
                p,
            ) implies #[trigger] after.has_player(p) by {
            if k < n {
                assert(self.games[k].player_red_id == Some(p));
            }
            assert(self.has_player(p));
        }
        assert forall|k: int, p: i32|
            0 <= k < after.games.len() && (#[trigger] after.games[k]).player_black_id == Some(
                p,
            ) implies #[trigger] after.has_player(p) by {
            if k < n {
                assert(self.games[k].player_black_id == Some(p));
            }
            assert(self.has_player(p));
        }
    }

    /// Storing a well-formed board in a row keeps the tables valid.
    proof fn lemma_save(self, k: int, snapshot: GameModel)
        requires
            self.valid(),
            0 <= k < self.games.len(),
            well_formed(snapshot.grid),
        ensures
            (DbModel { games: self.games.update(k, self.games[k].saved(snapshot)), ..self }).valid(),
    {
        let after = DbModel { games: self.games.update(k, self.games[k].saved(snapshot)), ..self };
        self.lemma_players_kept(after);
        assert forall|a: int, b: int| 0 <= a < b < after.games.len() implies (
        #[trigger] after.games[a]).id < (#[trigger] after.games[b]).id by {
            assert(self.games[a].id < self.games[b].id);
        }
        assert forall|n: int| 0 <= n < after.games.len() implies well_formed(
            (#[trigger] after.games[n]).grid,
        ) by {
            assert(well_formed(self.games[n].grid));
        }
        assert forall|n: int, p: i32|
            0 <= n < after.games.len() && (#[trigger] after.games[n]).player_red_id == Some(
                p,
            ) implies #[trigger] after.has_player(p) by {
            assert(self.games[n].player_red_id == Some(p));
            assert(self.has_player(p));
        }
        assert forall|n: int, p: i32|
            0 <= n < after.games.len() && (#[trigger] after.games[n]).player_black_id == Some(
                p,
            ) implies #[trigger] after.has_player(p) by {
            assert(self.games[n].player_black_id == Some(p));
            assert(self.has_player(p));
        }
    }

    /// What matchmaking leaves behind: valid tables with the same players,
    /// in which the game it hands out is stored under its id, seats the
    /// player and has a full grid.
    pub proof fn lemma_matched(self, player: i32)
        requires
            self.valid(),
            self.has_player(player),
            self.has_active(player) || self.has_waiting() || self.next_game_id() <= i32::MAX,
        ensures
            ({
                let (after, game) = self.matched(player);
                &&& after.valid()
                &&& after.players == self.players
                &&& after.has_game(game.id)
                &&& after.games[after.game_index(game.id)] == game
                &&& well_formed(game.grid)
                &&& game.player_red_id == Some(player) || game.player_black_id == Some(player)
            }),
    {
        let (after, game) = self.matched(player);
        if self.has_active(player) {
            let k = self.first_active(player);
            assert(self.is_first_active(player, k));
            self.lemma_game_index(k);
        } else if self.has_waiting() {
            let k = self.first_waiting();
            assert(self.is_first_waiting(k));
            self.lemma_join(k, player);
            assert(after.games[k] == game);
            after.lemma_game_index(k);
        } else {
            self.lemma_add_game(game);
            let k = self.games.len() as int;
            assert(after.games[k] == game);
            after.lemma_game_index(k);
            assert(well_formed(empty_grid()));
        }
    }
}

/// On tables without games, the first two players to ask are paired in one
/// game, the first as `Red` and the second as `Black`; a third player gets
/// another, new game.
pub proof fn lemma_matchmaking_pairs(db: DbModel, first: i32, second: i32, third: i32)
    requires
        db.games.len() == 0,
        first != second,
        third != first,
        third != second,
    ensures
        ({
            let (db1, game1) = db.matched(first);
            let (db2, game2) = db1.matched(second);
            let (db3, game3) = db2.matched(third);
            &&& game1.player_red_id == Some(first)
            &&& game1.player_black_id is None
            &&& game2.id == game1.id
            &&& game2.player_red_id == Some(first)
            &&& game2.player_black_id == Some(second)
            &&& game3.id != game1.id
            &&& game3.player_red_id == Some(third)
            &&& game3.player_black_id is None
            &&& db3.games.len() == 2
        }),
{
    db.lemma_no_active(first);
    db.lemma_no_waiting();
    let (db1, game1) = db.matched(first);
    assert(db1.games.len() == 1);
    assert(db1.games[0] == game1);
    db1.lemma_no_active(second);
    db1.lemma_first_waiting(0);
    let (db2, game2) = db1.matched(second);
    assert(db2.games.len() == 1);
    assert(db2.games[0] == game2);
    db2.lemma_no_active(third);
    db2.lemma_no_waiting();
}

/// The models of a list of player rows.
pub open spec fn players_of(rows: Seq<Player>) -> Seq<PlayerModel> {
    Seq::new(rows.len(), |k: int| rows[k]@)
}

/// The models of a list of game rows.
pub open spec fn games_of(rows: Seq<GameState>) -> Seq<GameModel> {
    Seq::new(rows.len(), |k: int| rows[k]@)
}

impl Db {
    /// The rows of the player table, oldest first.
    pub fn players(&self) -> (rows: &Vec<Player>)
        ensures
            players_of(rows@) == self@.players,
    {
        assert(players_of(self.players@) =~= self@.players);
        &self.players
    }

    /// The rows of the game table, oldest first.
    pub fn games(&self) -> (rows: &Vec<GameState>)
        ensures
            games_of(rows@) == self@.games,
    {
        assert(games_of(self.games@) =~= self@.games);
        &self.games
    }

    /// Tables made of the given rows, if the rows are fit to be tables:
    /// see `DbModel::valid`. Rows that are not are refused.
    pub fn from_rows(players: Vec<Player>, games: Vec<GameState>) -> (db: Option<Db>)
        ensures
            db is Some <==> (DbModel {
                players: players_of(players@),
                games: games_of(games@),
            }).valid(),
            db matches Some(tables) ==> tables.wf() && tables@ == (DbModel {
                players: players_of(players@),
                games: games_of(games@),
            }),
    {
        let ghost rows = DbModel { players: players_of(players@), games: games_of(games@) };
        let db = Db { players, games };
        let ghost model = db@;
        assert(model.players =~= rows.players);
        assert(model.games =~= rows.games);
        let mut b: usize = 0;
        while b < db.players.len()
            invariant
                model == db@,
                model == (DbModel { players: players_of(players@), games: games_of(games@) }),
                b <= db.players@.len(),
                forall|x: int, y: int|
                    0 <= x < y < b ==> (#[trigger] model.players[x]).id < (
                    #[trigger] model.players[y]).id,
                forall|x: int, y: int|
                    0 <= x < y < b ==> (#[trigger] model.players[x]).name != (
                    #[trigger] model.players[y]).name,
            decreases db.players@.len() - b,
        {
            if b > 0 && db.players[b - 1].id >= db.players[b].id {
                assert(!(model.players[b - 1].id < model.players[b as int].id));
                return None;
            }
            let mut a: usize = 0;
            while a < b
                invariant
                    model == db@,
                    model == (DbModel { players: players_of(players@), games: games_of(games@) }),
                    a <= b < db.players@.len(),
                    forall|x: int|
                        0 <= x < a ==> (#[trigger] model.players[x]).name != model.players[b as int].name,
                decreases b - a,
            {
                if db.players[a].name == db.players[b].name {
                    assert(model.players[a as int].name == model.players[b as int].name);
                    return None;
                }
                a += 1;
            }
            assert forall|x: int, y: int| 0 <= x < y < b + 1 implies (
            #[trigger] model.players[x]).id < (#[trigger] model.players[y]).id by {
                if y == b && x < b - 1 {
                    assert(model.players[x].id < model.players[b - 1].id);
                }
            }
            b += 1;
        }
        let mut k: usize = 0;
        while k < db.games.len()
            invariant
                model == db@,
                model == (DbModel { players: players_of(players@), games: games_of(games@) }),
                k <= db.games@.len(),
                forall|x: int, y: int|
                    0 <= x < y < k ==> (#[trigger] model.games[x]).id < (
                    #[trigger] model.games[y]).id,
                forall|x: int| 0 <= x < k ==> well_formed((#[trigger] model.games[x]).grid),
                forall|x: int, p: i32|
                    0 <= x < k && (#[trigger] model.games[x]).player_red_id == Some(p)
                        ==> #[trigger] model.has_player(p),
                forall|x: int, p: i32|
                    0 <= x < k && (#[trigger] model.games[x]).player_black_id == Some(p)
                        ==> #[trigger] model.has_player(p),
            decreases db.games@.len() - k,
        {
            let game = &db.games[k];
            assert(game@ == model.games[k as int]);
            if k > 0 && db.games[k - 1].id >= game.id {
                assert(!(model.games[k - 1].id < model.games[k as int].id));
                return None;
            }
            if !is_well_formed(&game.squares) {
                assert(!well_formed(model.games[k as int].grid));
                return None;
            }
            if let Some(p) = game.player_red_id {
                if db.find_player(p).is_none() {
                    assert(model.games[k as int].player_red_id == Some(p));
                    return None;
                }
            }
            if let Some(p) = game.player_black_id {
                if db.find_player(p).is_none() {
                    assert(model.games[k as int].player_black_id == Some(p));
                    return None;
                }
            }
            assert forall|x: int, y: int| 0 <= x < y < k + 1 implies (#[trigger] model.games[x]).id
                < (#[trigger] model.games[y]).id by {
                if y == k && x < k - 1 {
                    assert(model.games[x].id < model.games[k - 1].id);
                }
            }
            k += 1;
        }
        Some(db)
    }
}

} // verus!
