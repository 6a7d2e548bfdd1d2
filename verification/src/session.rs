//! One play request from start to end: find the player's game, apply the
//! move, store the game, and say what each of the two players is shown.

use vstd::prelude::*;

use crate::board::{copy_board, grid_of, pieces, well_formed, Colour, Direction, Grid, Squares};
use crate::db::{Db, DbModel, GameModel, GameState, StoreError};
use crate::game::{
    after_move, balanced, calculate_current_player, calculate_winner, can_land, current_player,
    lands, lemma_landing_adds_one, lemma_move_alternates, lemma_placed_unchanged,
    lemma_placed_well_formed, place_piece, placed, turn_after,
};
use crate::lines::{first_win, lemma_marked_well_formed, marked_board, winner_of};
use crate::ws::Play;
use crate::GAME_SIZE;

verus! {

/// Why a play request was given up.
#[derive(Clone, Copy, Debug, PartialEq, Eq)]
pub enum PlayError {
    /// The move names a row that is not on the board, or a direction that
    /// is not an end of a row.
    InvalidInput,
    /// The tables refused a lookup or a write.
    StoreUnavailable(StoreError),
}

/// What one player is shown: the board with the winning line marked, the
/// winner, who moves next, and the two names as this player sees them.
#[derive(Clone, Debug)]
pub struct GameUpdate {
    pub squares: Squares,
    pub winner: Option<Colour>,
    pub current_player: Option<Colour>,
    pub your_colour: Colour,
    pub your_name: String,
    pub their_name: String,
}

/// The two updates that one request gives rise to: one for the player who
/// asked, one for the opponent, if the game has one yet.
#[derive(Clone, Debug)]
pub struct Broadcast {
    pub this_player: i32,
    pub this_update: GameUpdate,
    pub that_player: Option<i32>,
    pub that_update: GameUpdate,
}

/// The model of an update.
pub struct GameUpdateModel {
    pub grid: Grid,
    pub winner: Option<Colour>,
    pub current_player: Option<Colour>,
    pub your_colour: Colour,
    pub your_name: Seq<char>,
    pub their_name: Seq<char>,
}

/// The model of a broadcast.
pub struct BroadcastModel {
    pub this_player: i32,
    pub this_update: GameUpdateModel,
    pub that_player: Option<i32>,
    pub that_update: GameUpdateModel,
}

impl View for GameUpdate {
    type V = GameUpdateModel;

    open spec fn view(&self) -> GameUpdateModel {
        GameUpdateModel {
            grid: grid_of(&self.squares),
            winner: self.winner,
            current_player: self.current_player,
            your_colour: self.your_colour,
            your_name: self.your_name@,
            their_name: self.their_name@,
        }
    }
}

impl View for Broadcast {
    type V = BroadcastModel;

    open spec fn view(&self) -> BroadcastModel {
        BroadcastModel {
            this_player: self.this_player,
            this_update: self.this_update@,
            that_player: self.that_player,
            that_update: self.that_update@,
        }
    }
}

/// The move cannot be made on any board: its row is off the board, or its
/// direction is not an end of a row.
pub open spec fn invalid_play(play: Option<Play>) -> bool {
    play matches Some(p) && (p.row >= GAME_SIZE || p.direction == Direction::Win)
}

/// What applying a request to a game yields.
pub struct Outcome {
    /// The game as it is stored afterwards.
    pub stored: GameModel,
    /// The board as it is shown, with the winning line marked.
    pub shown: Grid,
    /// The winner, if the board has one.
    pub winner: Option<Colour>,
    /// Who moves next, if anybody does.
    pub next: Option<Colour>,
}

/// Applies a request to a game. A move counts only on a game that is not
/// over; it is made by the player whose turn the piece counts give. After
/// a move that counts, nobody moves next where there is a winner; else the
/// mover moves again where the move was dropped, nobody where the board is
/// now full, and the mover's opponent otherwise. The game is over as soon
/// as nobody moves next. The board is stored without the `Win` marks.
pub open spec fn applied(game: GameModel, play: Option<Play>) -> Outcome {
    let current = current_player(game.grid);
    let have_play = play is Some && !game.finished;
    let board = if have_play {
        placed(game.grid, current, play->0.row as int, play->0.direction)
    } else {
        game.grid
    };
    let winner = winner_of(board);
    let next = if have_play {
        if winner is Some {
            None
        } else {
            turn_after(game.grid, board, current)
        }
    } else {
        current
    };
    Outcome {
        stored: GameModel { grid: board, finished: game.finished || next is None, ..game },
        shown: marked_board(board),
        winner,
        next,
    }
}

/// The colour `user` plays in `game`: `Red` in the `Red` seat, else `Black`.
pub open spec fn colour_of_player(game: GameModel, user: i32) -> Colour {
    if game.player_red_id == Some(user) {
        Colour::Red
    } else {
        Colour::Black
    }
}

/// Who sits opposite `user` in `game`, if anybody does yet.
pub open spec fn opponent_of(game: GameModel, user: i32) -> Option<i32> {
    if game.player_red_id == Some(user) {
        game.player_black_id
    } else {
        game.player_red_id
    }
}

/// The name of a player, or the empty name for nobody.
pub open spec fn name_of(db: DbModel, player: Option<i32>) -> Seq<char> {
    match player {
        Some(id) => db.player(id).name,
        None => Seq::empty(),
    }
}

/// The error a request ends in, if it ends in one: an invalid move before
/// anything else, then a player that is not registered, then tables that
/// can start no further game.
pub open spec fn session_error(db: DbModel, user: i32, play: Option<Play>) -> Option<PlayError> {
    if invalid_play(play) {
        Some(PlayError::InvalidInput)
    } else if !db.has_player(user) {
        Some(PlayError::StoreUnavailable(StoreError::UnknownPlayer))
    } else if !db.has_active(user) && !db.has_waiting() && db.next_game_id() > i32::MAX {
        Some(PlayError::StoreUnavailable(StoreError::OutOfIds))
    } else {
        None
    }
}

/// The tables after a request that succeeds, and what the two players are
/// shown. Both see the same board, winner and turn; colours and names are
/// framed for each.
pub open spec fn session(db: DbModel, user: i32, play: Option<Play>) -> (DbModel, BroadcastModel) {
    let (resolved, game) = db.matched(user);
    let outcome = applied(game, play);
    let stored = DbModel {
        games: resolved.games.update(resolved.game_index(game.id), outcome.stored),
        ..resolved
    };
    let mine = colour_of_player(game, user);
    let that_player = opponent_of(game, user);
    let my_name = name_of(db, Some(user));
    let their_name = name_of(db, that_player);
    (
        stored,
        BroadcastModel {
            this_player: user,
            this_update: GameUpdateModel {
                grid: outcome.shown,
                winner: outcome.winner,
                current_player: outcome.next,
                your_colour: mine,
                your_name: my_name,
                their_name: their_name,
            },
            that_player,
            that_update: GameUpdateModel {
                grid: outcome.shown,
                winner: outcome.winner,
                current_player: outcome.next,
                your_colour: mine.spec_opponent(),
                your_name: their_name,
                their_name: my_name,
            },
        },
    )
}

/// The colour `requester` plays in `game`, and who sits opposite.
pub fn perspective(game: &GameState, requester: i32) -> (seat: (Colour, Option<i32>))
    ensures
        seat.0 == colour_of_player(game@, requester),
        seat.1 == opponent_of(game@, requester),
{
    if game.player_red_id == Some(requester) {
        (Colour::Red, game.player_black_id)
    } else {
        (Colour::Black, game.player_red_id)
    }
}

/// Handles one request of `user_id`: finds the player's game through
/// matchmaking, applies the move if there is one and the game is not over,
/// stores the game, and returns what each of the two players is to be
/// shown. A request that fails leaves the tables as they were.
pub fn play_piece(user_id: i32, play: Option<Play>, db: &mut Db) -> (result: Result<
    Broadcast,
    PlayError,
>)
    requires
        old(db).wf(),
    ensures
        final(db).wf(),
        result is Err <==> session_error(old(db)@, user_id, play) is Some,
        result matches Err(e) ==> session_error(old(db)@, user_id, play) == Some(e) && final(db)@
            == old(db)@,
        result matches Ok(broadcast) ==> (final(db)@, broadcast@) == session(
            old(db)@,
            user_id,
            play,
        ),
{
    let ghost before = db@;
    if let Some(p) = play {
        if p.row >= GAME_SIZE || p.direction == Direction::Win {
            return Err(PlayError::InvalidInput);
        }
    }
    let your_name = match db.get_player_by_id(user_id) {
        Some(player) => player.name,
        None => {
            return Err(PlayError::StoreUnavailable(StoreError::UnknownPlayer));
        },
    };
    let mut game = match db.get_game(user_id) {
        Ok(game) => game,
        Err(e) => {
            return Err(PlayError::StoreUnavailable(e));
        },
    };
    let ghost resolved = db@;
    let ghost found = game@;
    proof {
        before.lemma_matched(user_id);
    }
    let (your_colour, that_player_id) = perspective(&game, user_id);
    let their_name = match that_player_id {
        Some(player_id) => match db.get_player_by_id(player_id) {
            Some(player) => player.name,
            None => String::new(),
        },
        None => String::new(),
    };
    let mut squares = copy_board(&game.squares);
    let mut current_player = calculate_current_player(&squares);
    let have_play = play.is_some() && !game.finished;
    let mut landed = false;
    if have_play {
        if let Some(p) = play {
            landed = current_player.is_some() && can_land(&squares, p);
            place_piece(current_player, p, &mut squares);
            proof {
                lemma_placed_well_formed(found.grid, current_player, p.row as int, p.direction);
                lemma_placed_unchanged(found.grid, current_player, p.row as int, p.direction);
            }
            game.squares = copy_board(&squares);
        }
    }
    let ghost board = grid_of(&squares);
    let winner = calculate_winner(&mut squares);
    proof {
        lemma_marked_well_formed(board, first_win(board));
    }
    if have_play {
        current_player = match winner {
            Some(_) => None,
            None => if !landed {
                current_player
            } else if calculate_current_player(&game.squares).is_none() {
                None
            } else {
                match current_player {
                    Some(mover) => Some(mover.opponent()),
                    None => None,
                }
            },
        };
    }
    game.finished = game.finished || current_player.is_none();
    match db.save_game(game) {
        Ok(()) => {},
        Err(e) => {
            return Err(PlayError::StoreUnavailable(e));
        },
    }
    let this_update = GameUpdate {
        squares: copy_board(&squares),
        winner,
        current_player,
        your_colour,
        your_name: your_name.clone(),
        their_name: their_name.clone(),
    };
    let that_update = GameUpdate {
        squares,
        winner,
        current_player,
        your_colour: your_colour.opponent(),
        your_name: their_name,
        their_name: your_name,
    };
    Ok(Broadcast { this_player: user_id, this_update, that_player: that_player_id, that_update })
}

/// The two updates of a request show the same board, winner and turn;
/// they differ in the colour and in the order of the two names only.
pub proof fn lemma_updates_agree(db: DbModel, user: i32, play: Option<Play>)
    ensures
        ({
            let shown = session(db, user, play).1;
            &&& shown.this_player == user
            &&& shown.this_update.grid == shown.that_update.grid
            &&& shown.this_update.winner == shown.that_update.winner
            &&& shown.this_update.current_player == shown.that_update.current_player
            &&& shown.that_update.your_colour == shown.this_update.your_colour.spec_opponent()
            &&& shown.that_update.your_name == shown.this_update.their_name
            &&& shown.that_update.their_name == shown.this_update.your_name
        }),
{
}

/// Who moves after a move that counts: nobody once there is a winner;
/// else, where the move landed, the mover's opponent, or nobody if it
/// filled the board; else, where the move was dropped, the mover again.
/// The game is over exactly when nobody moves next.
pub proof fn lemma_turn_after_move(game: GameModel, play: Play)
    requires
        well_formed(game.grid),
        !game.finished,
        play.row < GAME_SIZE,
    ensures
        ({
            let outcome = applied(game, Some(play));
            let mover = current_player(game.grid);
            let landed = mover is Some && lands(game.grid, play);
            &&& outcome.stored.grid == after_move(game.grid, play)
            &&& landed <==> outcome.stored.grid != game.grid
            &&& landed ==> pieces(outcome.stored.grid) == pieces(game.grid) + 1
            &&& outcome.winner is Some ==> outcome.next is None
            &&& outcome.winner is None && landed ==> outcome.next == (if pieces(game.grid) + 1
                == GAME_SIZE * GAME_SIZE {
                None
            } else {
                Some(mover->0.spec_opponent())
            })
            &&& outcome.winner is None && !landed ==> outcome.next == mover
            &&& outcome.stored.finished == (outcome.next is None)
        }),
{
    let mover = current_player(game.grid);
    lemma_placed_unchanged(game.grid, mover, play.row as int, play.direction);
    if mover is Some && lands(game.grid, play) {
        lemma_landing_adds_one(game.grid, mover->0, play);
    }
}

/// On a board that was filled in turn, the turn shown after a move that
/// counts and wins nothing is the turn that the piece counts of the stored
/// board give: a later request without a move shows the same.
pub proof fn lemma_turn_agrees_with_counts(game: GameModel, play: Play)
    requires
        well_formed(game.grid),
        balanced(game.grid),
        !game.finished,
        play.row < GAME_SIZE,
        applied(game, Some(play)).winner is None,
    ensures
        applied(game, Some(play)).next == current_player(applied(game, Some(play)).stored.grid),
{
    let mover = current_player(game.grid);
    lemma_placed_unchanged(game.grid, mover, play.row as int, play.direction);
    if lands(game.grid, play) {
        lemma_move_alternates(game.grid, play);
    }
}

/// A move that fills the board ends the game: nobody moves next and the
/// game is stored as finished, winner or not.
pub proof fn lemma_full_board_ends_game(game: GameModel, play: Play)
    requires
        !game.finished,
        pieces(after_move(game.grid, play)) == GAME_SIZE * GAME_SIZE,
    ensures
        applied(game, Some(play)).next is None,
        applied(game, Some(play)).stored.finished,
{
}

/// A request without a move changes no board: the game is stored with the
/// board it had, and it is over afterwards exactly if it was over before or
/// nobody is to move. On a finished game a move changes no more than that.
pub proof fn lemma_fetch_keeps_board(game: GameModel, play: Option<Play>)
    requires
        play is None || game.finished,
    ensures
        applied(game, play).stored.grid == game.grid,
        applied(game, play).next == current_player(game.grid),
        applied(game, play).stored.finished == (game.finished || current_player(game.grid)
            is None),
        applied(game, play).winner == winner_of(game.grid),
        applied(game, play).shown == marked_board(game.grid),
{
}

} // verus!
