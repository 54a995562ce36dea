//! Two players who send each other the attack of their placements.
use crate::data::{Piece, PieceLocation};
use crate::game::Game;
use crate::search::{chosen, search, Eval};
use vstd::prelude::*;

verus! {

/// How many plies a player looks ahead.
pub const BATTLE_DEPTH: usize = 6;

/// How many states a player keeps in each ply.
pub const BATTLE_WIDTH: usize = 5000;

/// A player: a game, the pieces to come and a rating of states.
pub struct Player<T: Eval> {
    pub game: Game,
    pub queue: Vec<Piece>,
    pub eval: T,
}

/// Two players and whose turn it is: 0 for the first, anything else for the second.
pub struct Battle<T: Eval, U: Eval> {
    pub player0: Player<T>,
    pub player1: Player<U>,
    pub who: u8,
}

/// The garbage that waits for a player after an attack came in on top of it.
pub open spec fn piled(waiting: u16, attack: u16) -> u16 {
    if waiting + attack > u16::MAX {
        u16::MAX
    } else {
        (waiting + attack) as u16
    }
}

/// What a turn of a player does to the player and to the opponent: the
/// player makes the placement that the search chooses, and its attack comes
/// in on top of the garbage that waits for the opponent; if the search finds
/// no placement, neither game changes. Queues and ratings stay as they are.
pub open spec fn turn_made<T: Eval, U: Eval>(
    player: Player<T>,
    opponent: Player<U>,
    player_after: Player<T>,
    opponent_after: Player<U>,
    r: Option<PieceLocation>,
) -> bool {
    &&& r == chosen(
        player.eval,
        player.game,
        player.queue@,
        BATTLE_DEPTH as int,
        BATTLE_WIDTH as int,
    )
    &&& player_after.queue == player.queue
    &&& player_after.eval == player.eval
    &&& opponent_after.queue == opponent.queue
    &&& opponent_after.eval == opponent.eval
    &&& opponent_after.game.board == opponent.game.board
    &&& opponent_after.game.hold == opponent.game.hold
    &&& opponent_after.game.b2b == opponent.game.b2b
    &&& opponent_after.game.combo == opponent.game.combo
    &&& match r {
        Some(p) => player_after.game == player.game.after(player.queue@[0], p)
            && opponent_after.game.incoming_garbage == piled(
            opponent.game.incoming_garbage,
            player.game.info_after(player.queue@[0], p).outgoing_attack,
        ),
        None => player_after.game == player.game && opponent_after.game.incoming_garbage
            == opponent.game.incoming_garbage,
    }
}

/// Lets `player` make the placement that the search chooses, and sends its
/// attack to `opponent`. Returns the placement, or nothing if the search
/// finds none; then nobody's game changes.
pub fn advance_player<T: Eval, U: Eval>(player: &mut Player<T>, opponent: &mut Player<U>) -> (r:
    Option<PieceLocation>)
    requires
        old(player).game.wf(),
        old(player).queue@.len() >= BATTLE_DEPTH,
    ensures
        turn_made(*old(player), *old(opponent), *final(player), *final(opponent), r),
{
    let found = search(&player.game, &player.queue, &player.eval, BATTLE_DEPTH, BATTLE_WIDTH);
    if let Some(p) = found {
        let next = player.queue[0];
        let info = player.game.advance(next, &p);
        opponent.game.incoming_garbage = opponent.game.incoming_garbage.saturating_add(
            info.outgoing_attack,
        );
        return Some(p);
    }
    None
}

impl<T: Eval, U: Eval> Battle<T, U> {
    /// Lets the player whose turn it is make a placement, and passes the
    /// turn on.
    pub fn advance(&mut self) -> (r: Option<PieceLocation>)
        requires
            old(self).who == 0 ==> old(self).player0.game.wf() && old(self).player0.queue@.len()
                >= BATTLE_DEPTH,
            old(self).who != 0 ==> old(self).player1.game.wf() && old(self).player1.queue@.len()
                >= BATTLE_DEPTH,
        ensures
            final(self).who == if old(self).who == 0 {
                1u8
            } else {
                0u8
            },
            old(self).who == 0 ==> turn_made(
                old(self).player0,
                old(self).player1,
                final(self).player0,
                final(self).player1,
                r,
            ),
            old(self).who != 0 ==> turn_made(
                old(self).player1,
                old(self).player0,
                final(self).player1,
                final(self).player0,
                r,
            ),
    {
        if self.who == 0 {
            self.who = 1;
            advance_player(&mut self.player0, &mut self.player1)
        } else {
            self.who = 0;
            advance_player(&mut self.player1, &mut self.player0)
        }
    }
}

} // verus!
