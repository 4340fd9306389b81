//! The turn protocol: who moves next, when a turn is passed, when the game
//! ends, and what a requested move does to the board.

use vstd::prelude::*;
use crate::square::Square;
use crate::grid::Grid;
use vstd::string::StringSliceAdditionalSpecFns;
use crate::board::{cell, Board, Pos};
use crate::input::{parse_line, parse_pos};

verus! {

/// What the driver of a game has to do next.
#[derive(Copy, Clone, Debug, PartialEq, Eq, Structural)]
pub enum Action {
    /// Ask this player for a move.
    Prompt(Square),
    /// The player to move had no move; the turn has gone to the other.
    Pass,
    /// Neither player has a move: the game is over.
    GameOver,
}

/// What became of a line of text that was entered as a move.
#[derive(Copy, Clone, Debug, PartialEq, Eq, Structural)]
pub enum Reply {
    /// The line asked for a move, and the move was made.
    Placed,
    /// The line asked for a cell that is off the board, occupied, or takes
    /// no disk.
    Illegal,
    /// The line does not name a cell.
    Malformed,
}

/// A game as a value: the grid, the player to move, and whether the turn
/// before this one was passed.
pub struct GameView {
    pub grid: Grid,
    pub turn: Square,
    pub passed: bool,
}

impl GameView {
    /// What a turn begins with: a prompt where the player to move has a
    /// move, otherwise a pass, or the end of the game where the turn before
    /// was passed too.
    pub open spec fn next_action(self) -> Action {
        if self.grid.has_move(self.turn) {
            Action::Prompt(self.turn)
        } else if self.passed {
            Action::GameOver
        } else {
            Action::Pass
        }
    }

    /// The game after a turn has begun: a pass hands the turn to the other
    /// player and is remembered, a prompt forgets the pass before it, and
    /// the end of the game changes nothing.
    pub open spec fn begin_turn(self) -> GameView {
        if self.grid.has_move(self.turn) {
            GameView { passed: false, ..self }
        } else if self.passed {
            self
        } else {
            GameView { turn: self.turn.spec_opponent(), passed: true, ..self }
        }
    }

    /// The game after the player to move has asked for the cell at `p`: where
    /// that is a move, the disk is placed, the disks it takes change sides
    /// and the turn goes to the other player; where it is none, nothing
    /// changes.
    pub open spec fn play(self, p: (int, int)) -> GameView {
        if self.grid.is_move(p, self.turn) {
            GameView {
                grid: self.grid.apply_move(p, self.turn, self.grid.captures(p, self.turn)),
                turn: self.turn.spec_opponent(),
                ..self
            }
        } else {
            self
        }
    }

    /// What a line of text entered as a move is answered with.
    pub open spec fn reply(self, line: Seq<u8>) -> Reply {
        match parse_line(line) {
            None => Reply::Malformed,
            Some(p) => if self.grid.is_move(p, self.turn) {
                Reply::Placed
            } else {
                Reply::Illegal
            },
        }
    }

    /// The game after a line of text was entered as a move: the move is
    /// played, and a line that names no cell changes nothing.
    pub open spec fn respond(self, line: Seq<u8>) -> GameView {
        match parse_line(line) {
            None => self,
            Some(p) => self.play(p),
        }
    }

    /// A pass is never followed by another pass: the turn after it is a
    /// prompt or the end of the game.
    pub proof fn lemma_pass_once(self)
        requires
            self.next_action() == Action::Pass,
        ensures
            self.begin_turn().next_action() != Action::Pass,
    {
    }

    /// Where neither player has a move the game ends at once, or after one
    /// pass.
    pub proof fn lemma_double_pass(self)
        requires
            !self.grid.has_move(Square::Black),
            !self.grid.has_move(Square::White),
        ensures
            self.next_action() == Action::GameOver || (self.next_action() == Action::Pass
                && self.begin_turn().next_action() == Action::GameOver),
    {
        self.grid.lemma_no_move_for_empty();
    }
}

/// A game in progress.
pub struct Game {
    board: Board,
    turn: Square,
    passed: bool,
}

impl View for Game {
    type V = GameView;

    closed spec fn view(&self) -> GameView {
        GameView { grid: self.board@, turn: self.turn, passed: self.passed }
    }
}

impl Game {
    /// What every game keeps: a well-formed board.
    pub closed spec fn wf(&self) -> bool {
        self.board.wf()
    }

    /// A game on `board` in which `turn` moves first.
    pub fn new(board: Board, turn: Square) -> (game: Game)
        requires
            board.wf(),
        ensures
            game.wf(),
            game@ == (GameView { grid: board@, turn, passed: false }),
    {
        Game { board, turn, passed: false }
    }

    /// The board as it stands.
    pub fn board(&self) -> (board: &Board)
        requires
            self.wf(),
        ensures
            board.wf(),
            board@ == self@.grid,
    {
        &self.board
    }

    /// The player to move.
    pub fn turn(&self) -> (turn: Square)
        ensures
            turn == self@.turn,
    {
        self.turn
    }

    /// Whether the turn before this one was passed.
    pub fn passed(&self) -> (passed: bool)
        ensures
            passed == self@.passed,
    {
        self.passed
    }

    /// Begins a turn, and says what the driver has to do next.
    pub fn begin_turn(&mut self) -> (action: Action)
        requires
            old(self).wf(),
        ensures
            final(self).wf(),
            action == old(self)@.next_action(),
            final(self)@ == old(self)@.begin_turn(),
    {
        if !self.board.has_available_pos(self.turn) {
            if self.passed {
                Action::GameOver
            } else {
                self.turn = self.turn.opponent();
                self.passed = true;
                Action::Pass
            }
        } else {
            self.passed = false;
            Action::Prompt(self.turn)
        }
    }

    /// Plays the cell at `pos` for the player to move, if that is a move,
    /// and says whether it was.
    pub fn play(&mut self, pos: &Pos) -> (placed: bool)
        requires
            old(self).wf(),
        ensures
            final(self).wf(),
            placed == old(self)@.grid.is_move(cell(*pos), old(self)@.turn),
            final(self)@ == old(self)@.play(cell(*pos)),
    {
        if !self.board.is_on_board(pos) {
            return false;
        }
        if self.board.get_at(pos) != Square::Empty {
            return false;
        }
        let poses = self.board.flippable_poses(pos, self.turn);
        if poses.is_empty() {
            return false;
        }
        proof {
            let g = self.board@;
            let taken = g.captures(cell(*pos), self.turn);
            g.lemma_captures_sound(cell(*pos), self.turn);
            assert forall|i: int| 0 <= i < poses@.len() implies g.on_board(cell(#[trigger] poses@[i])) by {
                assert(taken[i] == cell(poses@[i]));
                assert(taken.contains(taken[i]));
            }
        }
        self.board.apply_move(pos, self.turn, poses.as_slice());
        self.turn = self.turn.opponent();
        true
    }

    /// Takes a line of text as the move of the player to move, and says what
    /// became of it.
    pub fn respond(&mut self, line: &str) -> (reply: Reply)
        requires
            old(self).wf(),
        ensures
            final(self).wf(),
            reply == old(self)@.reply(line.spec_bytes()),
            final(self)@ == old(self)@.respond(line.spec_bytes()),
    {
        match parse_pos(line) {
            None => Reply::Malformed,
            Some(pos) => if self.play(&pos) {
                Reply::Placed
            } else {
                Reply::Illegal
            },
        }
    }
}

} // verus!
