//! The shared game session: two boards, two connection slots, whose
//! turn it is, and the remaining-fleet counters. All decisions of the
//! per-connection control loop live here; the loop itself only moves
//! bytes.

use crate::board::{
    at, board_after_shot, fleet_placed, in_grid, process_shot, setup_board, shot_hits, shot_sinks,
    Board, Cell,
};
use crate::parse::{parse_input, parse_spec, ParseError};
use vstd::prelude::*;

verus! {

/// The answer to one submitted move.
#[derive(Clone, Copy, PartialEq, Eq, Structural, Debug)]
pub enum TurnReply {
    /// The input was not a valid coordinate; nothing changed and the
    /// player keeps the turn.
    Rejected(ParseError),
    /// The shot was resolved against the opponent's board.
    Fired { hit: bool, sunk: bool },
}

/// The one game instance both connection handlers share. `board1` is
/// player 1's own fleet, shot at by player 2, and vice versa;
/// `ships1` counts player 1's surviving ships.
pub struct Session {
    pub player1: bool,
    pub player2: bool,
    pub board1: Board,
    pub board2: Board,
    pub current_turn: usize,
    pub game_started: bool,
    pub ships1: usize,
    pub ships2: usize,
}

impl Session {
    pub open spec fn inv(self) -> bool {
        &&& self.board1.wf()
        &&& self.board2.wf()
        &&& self.current_turn == 1 || self.current_turn == 2
        &&& self.ships1 <= 10
        &&& self.ships2 <= 10
    }

    /// Who has won: the player whose opponent has no ships left.
    pub open spec fn winner_of(self) -> Option<usize> {
        if self.ships2 == 0 {
            Some(1usize)
        } else if self.ships1 == 0 {
            Some(2usize)
        } else {
            None
        }
    }

    /// A fresh session: empty boards, no connections, game not
    /// started, player 1 to move first, full fleets of ten.
    pub fn new() -> (s: Session)
        ensures
            s.inv(),
            !s.player1,
            !s.player2,
            !s.game_started,
            s.current_turn == 1,
            s.ships1 == 10,
            s.ships2 == 10,
            forall|i: int, j: int| in_grid(i, j) ==> at(s.board1@, i, j) == Cell::Empty,
            forall|i: int, j: int| in_grid(i, j) ==> at(s.board2@, i, j) == Cell::Empty,
    {
        Session {
            player1: false,
            player2: false,
            board1: Board::new(),
            board2: Board::new(),
            current_turn: 1,
            game_started: false,
            ships1: 10,
            ships2: 10,
        }
    }

    /// Both player slots are occupied.
    pub fn is_ready(&self) -> (r: bool)
        ensures
            r == (self.player1 && self.player2),
    {
        self.player1 && self.player2
    }

    /// Binds `player_id`'s slot and places that player's fleet on a
    /// fresh board; the game starts the moment both slots are bound.
    /// Fails, leaving the session unchanged, only when fleet
    /// placement ran out of room.
    pub fn register(&mut self, player_id: usize) -> (ok: bool)
        requires
            old(self).inv(),
            player_id == 1 || player_id == 2,
        ensures
            final(self).inv(),
            !ok ==> *final(self) == *old(self),
            ok ==> final(self).current_turn == old(self).current_turn
                && final(self).ships1 == old(self).ships1 && final(self).ships2 == old(self).ships2 && final(self).game_started == (old(self).game_started || (final(self).player1 && final(self).player2)),
            ok && player_id == 1 ==> final(self).player1 && final(self).player2 == old(self).player2 && final(self).board2 == old(self).board2 && fleet_placed(
                final(self).board1@,
            ),
            ok && player_id == 2 ==> final(self).player2 && final(self).player1 == old(self).player1 && final(self).board1 == old(self).board1 && fleet_placed(
                final(self).board2@,
            ),
    {
        let mut fresh = Board::new();
        if !setup_board(&mut fresh) {
            return false;
        }
        if player_id == 1 {
            self.player1 = true;
            self.board1 = fresh;
        } else {
            self.player2 = true;
            self.board2 = fresh;
        }
        if self.player1 && self.player2 && !self.game_started {
            self.game_started = true;
        }
        true
    }

    /// The game has started and it is `player_id`'s move.
    pub fn is_my_turn(&self, player_id: usize) -> (r: bool)
        ensures
            r == (self.game_started && self.current_turn == player_id),
    {
        self.game_started && self.current_turn == player_id
    }

    /// The given player's own remaining-ship counter.
    pub fn remaining(&self, player_id: usize) -> (r: usize)
        requires
            player_id == 1 || player_id == 2,
        ensures
            r == (if player_id == 1 {
                self.ships1
            } else {
                self.ships2
            }),
    {
        if player_id == 1 {
            self.ships1
        } else {
            self.ships2
        }
    }

    /// Reports the winner as soon as either fleet counter reaches
    /// zero, and nobody before that.
    pub fn is_over(&self) -> (r: Option<usize>)
        ensures
            r == self.winner_of(),
    {
        if self.ships2 == 0 {
            Some(1)
        } else if self.ships1 == 0 {
            Some(2)
        } else {
            None
        }
    }

    /// Resolves a shot by `by_player` against the opponent's board,
    /// decrements the opponent's fleet counter when a ship went down,
    /// and hands the turn to the other player whatever the outcome.
    pub fn apply_shot(&mut self, by_player: usize, x: usize, y: usize) -> (r: (bool, bool))
        requires
            old(self).inv(),
            by_player == 1 || by_player == 2,
            x < 10,
            y < 10,
            old(self).winner_of() is None,
        ensures
            final(self).inv(),
            ({
                let target = if by_player == 1 {
                    old(self).board2@
                } else {
                    old(self).board1@
                };
                let target2 = if by_player == 1 {
                    final(self).board2@
                } else {
                    final(self).board1@
                };
                &&& r.0 == shot_hits(target, x as int, y as int)
                &&& r.1 == shot_sinks(target, x as int, y as int)
                &&& target2 == board_after_shot(target, x as int, y as int)
            }),
            by_player == 1 ==> final(self).board1 == old(self).board1 && final(self).ships1 == old(self).ships1 && final(self).ships2 as int == old(self).ships2 - (if r.1 {
                1int
            } else {
                0int
            }),
            by_player == 2 ==> final(self).board2 == old(self).board2 && final(self).ships2 == old(self).ships2 && final(self).ships1 as int == old(self).ships1 - (if r.1 {
                1int
            } else {
                0int
            }),
            final(self).current_turn == (if by_player == 1 {
                2int
            } else {
                1int
            }),
            final(self).game_started == old(self).game_started,
            final(self).player1 == old(self).player1,
            final(self).player2 == old(self).player2,
    {
        let result: (bool, bool);
        if by_player == 1 {
            result = process_shot(&mut self.board2, x, y);
            if result.1 {
                self.ships2 = self.ships2 - 1;
            }
        } else {
            result = process_shot(&mut self.board1, x, y);
            if result.1 {
                self.ships1 = self.ships1 - 1;
            }
        }
        self.current_turn = if by_player == 1 {
            2
        } else {
            1
        };
        result
    }

    /// One full move by `player_id`: parse the submitted text and, if
    /// valid, resolve the shot. Rejected input changes nothing at all
    /// — the player keeps the turn; a valid shot, hit or miss,
    /// always passes the turn on.
    pub fn play_turn(&mut self, player_id: usize, input: &str) -> (reply: TurnReply)
        requires
            old(self).inv(),
            player_id == 1 || player_id == 2,
            old(self).game_started,
            old(self).current_turn == player_id,
            old(self).winner_of() is None,
        ensures
            final(self).inv(),
            parse_spec(input@) matches Err(e) ==> *final(self) == *old(self) && reply
                == TurnReply::Rejected(e),
            parse_spec(input@) matches Ok(xy) ==> ({
                let target = if player_id == 1 {
                    old(self).board2@
                } else {
                    old(self).board1@
                };
                let target2 = if player_id == 1 {
                    final(self).board2@
                } else {
                    final(self).board1@
                };
                let hit = shot_hits(target, xy.0 as int, xy.1 as int);
                let sunk = shot_sinks(target, xy.0 as int, xy.1 as int);
                &&& reply == (TurnReply::Fired { hit, sunk })
                &&& target2 == board_after_shot(target, xy.0 as int, xy.1 as int)
                &&& final(self).current_turn == (if player_id == 1 {
                    2int
                } else {
                    1int
                })
                &&& (if player_id == 1 {
                    final(self).board1 == old(self).board1 && final(self).ships1 == old(self).ships1 && final(self).ships2 as int == old(self).ships2 - (if sunk {
                        1int
                    } else {
                        0int
                    })
                } else {
                    final(self).board2 == old(self).board2 && final(self).ships2 == old(self).ships2 && final(self).ships1 as int == old(self).ships1 - (if sunk {
                        1int
                    } else {
                        0int
                    })
                })
                &&& final(self).game_started && final(self).player1 == old(self).player1
                    && final(self).player2 == old(self).player2
            }),
    {
        match parse_input(input) {
            Err(e) => TurnReply::Rejected(e),
            Ok((x, y)) => {
                let r = self.apply_shot(player_id, x, y);
                TurnReply::Fired { hit: r.0, sunk: r.1 }
            },
        }
    }
}

} // verus!
