//! A game: two boards that play the same pieces, round by round, and send
//! each other garbage.

use crate::player::Player;
use crate::state::{PlayerState, MOVES};
use std::collections::VecDeque;
use vstd::prelude::*;

verus! {

/// How a round ended, as the first player sees it.
#[derive(Clone, Copy, Debug, PartialEq, Eq, Structural)]
pub enum Outcome {
    /// Both boards took the round; the game goes on.
    InProgress,
    /// The first player has won.
    SelfWins,
    /// The first player has lost.
    SelfLoses,
}

/// Two boards and the pieces to come.
#[derive(Clone)]
pub struct Game {
    me: Player,
    opp: Player,
    queue: VecDeque<u8>,
}

/// What a `Game` stands for.
pub struct GameState {
    /// The board of the first player.
    pub me: PlayerState,
    /// The board of the opponent.
    pub opp: PlayerState,
    /// The pieces to come, the next one first.
    pub queue: Seq<u8>,
}

/// Who wins a round in which a board failed. A board that failed alone
/// loses. Where both failed, the first player wins with more points than
/// the opponent, and loses otherwise: equal points count as lost.
pub open spec fn verdict(me_ok: bool, opp_ok: bool, me_score: nat, opp_score: nat) -> Outcome {
    if me_ok && opp_ok {
        Outcome::InProgress
    } else if me_ok {
        Outcome::SelfWins
    } else if opp_ok {
        Outcome::SelfLoses
    } else if me_score > opp_score {
        Outcome::SelfWins
    } else {
        Outcome::SelfLoses
    }
}

/// A board after a round that it did or did not get through, as did or did
/// not the other: a board that failed alone loses its points.
pub open spec fn after_verdict(p: PlayerState, ok: bool, other_ok: bool) -> PlayerState {
    if !ok && other_ok {
        PlayerState { score: 0, ..p }
    } else {
        p
    }
}

impl GameState {
    /// Both boards have their fill indices in the grid.
    pub open spec fn wf(self) -> bool {
        self.me.wf() && self.opp.wf()
    }

    /// A round can be played: a piece is waiting, and both boards have room
    /// for the score of a cascade.
    pub open spec fn can_step(self) -> bool {
        &&& self.queue.len() > 0
        &&& self.me.has_headroom()
        &&& self.opp.has_headroom()
    }

    /// Both boards have room for the balls of the next piece.
    pub open spec fn placement_ok(self, my_action: u8, opp_action: u8) -> bool {
        self.me.can_place(my_action) && self.opp.can_place(opp_action)
    }

    /// How the round with the two moves ends. Where a board has no room for
    /// the piece, the placement decides, and none of the boards is resolved.
    /// Where both have room, both are resolved, and the garbage decides.
    pub open spec fn round_outcome(self, my_action: u8, opp_action: u8) -> Outcome {
        if !self.placement_ok(my_action, opp_action) {
            verdict(
                self.me.can_place(my_action),
                self.opp.can_place(opp_action),
                self.me.score,
                self.opp.score,
            )
        } else {
            let me = self.me.placed(self.queue[0], my_action).resolved();
            let opp = self.opp.placed(self.queue[0], opp_action).resolved();
            verdict(
                me.can_take(opp.garbage_rows()),
                opp.can_take(me.garbage_rows()),
                me.score,
                opp.score,
            )
        }
    }

    /// The game after the round with the two moves. The balls of the next
    /// piece are placed on both boards. Where a board had no room for them,
    /// both boards stay as placed: nothing is cleared and no points are
    /// earned. Where both had room, both are resolved, and each sends the
    /// other the garbage that its pending points make. A board that failed
    /// alone, in either step, loses its points.
    pub open spec fn after_round(self, my_action: u8, opp_action: u8) -> GameState {
        let queue = self.queue.subrange(1, self.queue.len() as int);
        if !self.placement_ok(my_action, opp_action) {
            GameState {
                me: after_verdict(
                    self.me.placed(self.queue[0], my_action),
                    self.me.can_place(my_action),
                    self.opp.can_place(opp_action),
                ),
                opp: after_verdict(
                    self.opp.placed(self.queue[0], opp_action),
                    self.opp.can_place(opp_action),
                    self.me.can_place(my_action),
                ),
                queue,
            }
        } else {
            let me = self.me.placed(self.queue[0], my_action).resolved();
            let opp = self.opp.placed(self.queue[0], opp_action).resolved();
            let me_ok = me.can_take(opp.garbage_rows());
            let opp_ok = opp.can_take(me.garbage_rows());
            GameState {
                me: after_verdict(me.with_garbage(opp.garbage_rows()).drained(), me_ok, opp_ok),
                opp: after_verdict(opp.drained().with_garbage(me.garbage_rows()), opp_ok, me_ok),
                queue,
            }
        }
    }
}

impl View for Game {
    type V = GameState;

    closed spec fn view(&self) -> GameState {
        GameState { me: self.me@, opp: self.opp@, queue: self.queue@ }
    }
}

impl Game {
    /// Both boards have their fill indices in the grid.
    pub open spec fn wf(&self) -> bool {
        self@.wf()
    }

    /// A game with two empty boards and the pieces `queue` to come.
    pub fn new(queue: VecDeque<u8>) -> (game: Game)
        ensures
            game.wf(),
            game@.queue == queue@,
            game@.me == Player::new_state(),
            game@.opp == Player::new_state(),
    {
        Game { me: Player::new(), opp: Player::new(), queue }
    }

    /// Plays one round. The balls of the next piece are placed on both
    /// boards, on the first as the move `my_action` says, on the other as
    /// `opp_action` says. Where both found room, both boards are resolved,
    /// and each then gets the rows of garbage that the pending points of
    /// the other make. The game goes on where both boards got through. A
    /// board that failed alone, at the piece or at the garbage, loses, and
    /// loses its points. Where both failed, the first player wins with more
    /// points than the opponent and loses otherwise. A round that the
    /// placement decides clears nothing and earns no points.
    pub fn play(&mut self, my_action: u8, opp_action: u8) -> (outcome: Outcome)
        requires
            old(self).wf(),
            old(self)@.can_step(),
            my_action < MOVES,
            opp_action < MOVES,
        ensures
            final(self).wf(),
            outcome == old(self)@.round_outcome(my_action, opp_action),
            final(self)@ == old(self)@.after_round(my_action, opp_action),
    {
        let balls = self.queue.pop_front().unwrap();

        let me_result = self.me.place(balls, my_action);
        let opp_result = self.opp.place(balls, opp_action);

        match (me_result, opp_result) {
            (Ok(()), Ok(())) => (),
            (Err(_), Ok(())) => {
                self.me.reset_score();
                return Outcome::SelfLoses;
            },
            (Ok(()), Err(_)) => {
                self.opp.reset_score();
                return Outcome::SelfWins;
            },
            (Err(_), Err(_)) => {
                if self.me.get_score() > self.opp.get_score() {
                    return Outcome::SelfWins;
                } else {
                    return Outcome::SelfLoses;
                }
            },
        }

        self.me.resolve();
        self.opp.resolve();

        let rows_for_me = self.opp.apply_nuisance();
        let me_result = self.me.add_heads(rows_for_me);
        let rows_for_opp = self.me.apply_nuisance();
        let opp_result = self.opp.add_heads(rows_for_opp);

        match (me_result, opp_result) {
            (Ok(()), Ok(())) => Outcome::InProgress,
            (Err(_), Ok(())) => {
                self.me.reset_score();
                Outcome::SelfLoses
            },
            (Ok(()), Err(_)) => {
                self.opp.reset_score();
                Outcome::SelfWins
            },
            (Err(_), Err(_)) => {
                if self.me.get_score() > self.opp.get_score() {
                    Outcome::SelfWins
                } else {
                    Outcome::SelfLoses
                }
            },
        }
    }

    /// A copy of the game that shares nothing with it.
    pub fn snapshot(&self) -> (copy: Game)
        ensures
            copy@ == self@,
    {
        let queue = self.queue.clone();
        Game { me: self.me, opp: self.opp, queue }
    }

    /// Puts the piece `new_balls` at the end of the pieces to come.
    pub fn add_balls(&mut self, new_balls: u8)
        ensures
            final(self)@ == (GameState { queue: old(self)@.queue.push(new_balls), ..old(self)@ }),
    {
        self.queue.push_back(new_balls);
    }

    /// The board of the first player.
    pub fn get_me(&self) -> (me: &Player)
        ensures
            me@ == self@.me,
    {
        &self.me
    }

    /// The board of the opponent.
    pub fn get_opp(&self) -> (opp: &Player)
        ensures
            opp@ == self@.opp,
    {
        &self.opp
    }

    /// The number of pieces to come.
    pub fn queue_len(&self) -> (len: usize)
        ensures
            len == self@.queue.len(),
    {
        self.queue.len()
    }

    /// The pieces to come, the next one first.
    pub fn upcoming(&self) -> (pieces: Vec<u8>)
        ensures
            pieces@ == self@.queue,
    {
        let mut pieces: Vec<u8> = Vec::new();
        for i in 0..self.queue.len()
            invariant
                pieces@ == self.queue@.take(i as int),
        {
            pieces.push(self.queue[i]);
        }
        pieces
    }

    /// Both boards have room for the score of a cascade.
    pub fn has_headroom(&self) -> (ok: bool)
        ensures
            ok == (self@.me.has_headroom() && self@.opp.has_headroom()),
    {
        self.me.has_headroom() && self.opp.has_headroom()
    }

    /// A round can be played: a piece is waiting, and both boards have room
    /// for the score of a cascade.
    pub fn can_step(&self) -> (ok: bool)
        ensures
            ok == self@.can_step(),
    {
        self.queue.len() > 0 && self.me.has_headroom() && self.opp.has_headroom()
    }
}

} // verus!
