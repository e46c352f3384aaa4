use vstd::prelude::*;
use crate::cascade::reveal_rel;
use crate::counting::{count_revealed, lemma_counts_le_len, lemma_all_safe_revealed_count};
use crate::game::{GameState, ConfigError, closed, fresh_board, valid_config, wf};

verus! {

/// The per-run session: the game in play, the chosen difficulty preset
/// (0 easy, 1 medium, 2 hard) and the cumulative score, counting one for
/// each game won since the score was last reset.
#[derive(Clone, Debug, PartialEq)]
pub struct MinesweeperApp {
    pub score: u32,
    pub difficulty: u8,
    pub game_state: GameState,
}

/// The game is won the moment it is not lost and the number of revealed
/// cells is the number of non-mine cells.
pub open spec fn win_cond(s: GameState) -> bool {
    !s.game_over && count_revealed(s.grid@) == s.width * s.height - s.mines_count
}

/// Revealing every non-mine cell, and no mine, meets the win condition:
/// on such a board the revealed count is exactly the non-mine cell count.
pub proof fn lemma_all_safe_revealed_wins(s: GameState)
    requires
        wf(s),
        !s.game_over,
        forall|i: int|
            0 <= i < s.grid@.len() ==> ((#[trigger] s.grid@[i]).is_revealed <==> !s.grid@[i].is_mine),
    ensures
        win_cond(s),
{
    lemma_all_safe_revealed_count(s.grid@);
}

impl Default for MinesweeperApp {
    /// A fresh session: score 0 and a new board on the hard preset.
    fn default() -> (a: MinesweeperApp)
        ensures
            a.score == 0,
            a.difficulty == 2,
            fresh_board(a.game_state, 40, 16, 99),
    {
        MinesweeperApp { score: 0, difficulty: 2, game_state: GameState::new(40, 16, 99) }
    }
}

impl MinesweeperApp {
    /// Switches to the easy preset: a fresh 9 by 9 board with 10 mines.
    /// The board in play is discarded whole; the score is untouched.
    pub fn easy(&mut self)
        ensures
            final(self).score == old(self).score,
            final(self).difficulty == 0,
            fresh_board(final(self).game_state, 9, 9, 10),
    {
        self.difficulty = 0;
        self.game_state = GameState::new(9, 9, 10);
    }

    /// Switches to the medium preset: a fresh 16 by 16 board with 40 mines.
    /// The board in play is discarded whole; the score is untouched.
    pub fn medium(&mut self)
        ensures
            final(self).score == old(self).score,
            final(self).difficulty == 1,
            fresh_board(final(self).game_state, 16, 16, 40),
    {
        self.difficulty = 1;
        self.game_state = GameState::new(16, 16, 40);
    }

    /// Switches to the hard preset: a fresh 40 by 16 board with 99 mines.
    /// The board in play is discarded whole; the score is untouched.
    pub fn hard(&mut self)
        ensures
            final(self).score == old(self).score,
            final(self).difficulty == 2,
            fresh_board(final(self).game_state, 40, 16, 99),
    {
        self.difficulty = 2;
        self.game_state = GameState::new(40, 16, 99);
    }

    /// Rebuilds a fresh board with the dimensions and mine count in play —
    /// a new random layout — and puts the game back in the running state.
    /// The score is untouched. A configuration that could not fill a board
    /// is rejected and the state left as it was.
    pub fn restart(&mut self) -> (r: Result<(), ConfigError>)
        ensures
            final(self).score == old(self).score,
            final(self).difficulty == old(self).difficulty,
            r is Ok <==> valid_config(old(self).game_state.width as int,
                old(self).game_state.height as int, old(self).game_state.mines_count as int),
            r is Ok ==> fresh_board(final(self).game_state, old(self).game_state.width as int,
                old(self).game_state.height as int, old(self).game_state.mines_count as int),
            r is Err ==> final(self).game_state == old(self).game_state && r->Err_0
                == ConfigError::InvalidConfiguration,
    {
        match GameState::try_new(self.game_state.width, self.game_state.height,
            self.game_state.mines_count) {
            Ok(gs) => {
                self.game_state = gs;
                Ok(())
            },
            Err(e) => Err(e),
        }
    }

    /// Puts the cumulative score back to 0. Nothing else moves.
    pub fn reset_score(&mut self)
        ensures
            final(self).score == 0,
            final(self).difficulty == old(self).difficulty,
            final(self).game_state == old(self).game_state,
    {
        self.score = 0;
    }

    /// Win detection, run after a reveal: when the game is not lost and
    /// every non-mine cell is revealed, the game is marked won, and the
    /// score moves up by one exactly on that transition — a game already
    /// won scores nothing more.
    pub fn check_win(&mut self)
        requires
            wf(old(self).game_state),
            old(self).score < u32::MAX,
        ensures
            final(self).difficulty == old(self).difficulty,
            final(self).game_state.grid@ == old(self).game_state.grid@,
            final(self).game_state.width == old(self).game_state.width,
            final(self).game_state.height == old(self).game_state.height,
            final(self).game_state.mines_count == old(self).game_state.mines_count,
            final(self).game_state.mines_left == old(self).game_state.mines_left,
            final(self).game_state.game_over == old(self).game_state.game_over,
            final(self).game_state.game_won == (old(self).game_state.game_won || win_cond(
                old(self).game_state,
            )),
            final(self).score == old(self).score + (if !old(self).game_state.game_won && win_cond(
                old(self).game_state,
            ) {
                1int
            } else {
                0int
            }),
    {
        proof {
            lemma_counts_le_len(self.game_state.grid@);
        }
        let total_revealed: usize = self.game_state.count_revealed_cells();
        let target: usize = self.game_state.width * self.game_state.height
            - self.game_state.mines_count;
        if !self.game_state.game_over && total_revealed == target {
            if !self.game_state.game_won {
                self.score = self.score + 1;
            }
            self.game_state.game_won = true;
        }
    }

    /// A click on the cell at column `x`, row `y`: once the game is over
    /// or won it does nothing; otherwise it is a direct reveal of that
    /// cell followed by win detection.
    pub fn click(&mut self, x: usize, y: usize)
        requires
            wf(old(self).game_state),
            closed(old(self).game_state),
            x < old(self).game_state.width,
            y < old(self).game_state.height,
            old(self).score < u32::MAX,
        ensures
            wf(final(self).game_state),
            closed(final(self).game_state),
            final(self).difficulty == old(self).difficulty,
            (old(self).game_state.game_over || old(self).game_state.game_won) ==> (final(self).score
                == old(self).score && final(self).game_state == old(self).game_state),
            !(old(self).game_state.game_over || old(self).game_state.game_won) ==> (reveal_rel(
                old(self).game_state,
                final(self).game_state,
                x as int,
                y as int,
                true,
            ) && final(self).game_state.game_won == (old(self).game_state.game_won || win_cond(
                final(self).game_state,
            )) && final(self).score == old(self).score + (if !old(self).game_state.game_won
                && win_cond(final(self).game_state) {
                1int
            } else {
                0int
            })),
    {
        if self.game_state.game_over || self.game_state.game_won {
            return;
        }
        self.game_state.reveal_cell(x, y, true);
        let ghost smid = self.game_state;
        self.check_win();
        proof {
            crate::game::lemma_wf_same_board(smid, self.game_state);
            crate::game::lemma_closed_same_board(smid, self.game_state);
            crate::cascade::lemma_reveal_rel_same_board(old(self).game_state, smid,
                self.game_state, x as int, y as int, true);
        }
    }
}

} // verus!
