//! Verified engine for a 2048-style sliding-tile puzzle.
//!
//! The library is organised around a mathematical model of a single
//! stack (`model`), the directional slide-merge engine (`moving`), the
//! board types and the tile spawn allocator (`tiling`), a session facade
//! (`game`) and the laws that tie the pieces together (`laws`).
//!
//! A grid cell stores the exponent `p` of a tile whose displayed value
//! is `2^p`; `0` marks an empty cell.

pub mod game;
pub mod laws;
pub mod model;
pub mod moving;
pub mod tiling;

use crate::moving::{powers_of, Merged};
use vstd::arithmetic::power2::{lemma_pow2_pos, pow2};
use vstd::prelude::*;

verus! {

/// The screens and phases the surrounding application moves through.
/// Only the finished-game routing below reads them; the menus themselves
/// are the application's business.
#[derive(Debug, Clone, Copy, Eq, PartialEq, Structural, Hash)]
pub enum AppState {
    Loading,
    Setup,
    InGame,
    MainMenu,
    SettingsMenu,
    Paused,
    WonMenu,
    LostMenu,
    CongratsMenu,
}

impl Default for AppState {
    fn default() -> (s: AppState)
        ensures
            s == AppState::Loading,
    {
        AppState::Loading
    }
}

/// Why a game ended: the board filled up, or the player quit.
#[derive(Debug, Copy, Clone, PartialEq, Eq, Structural)]
pub enum FinishGame {
    GameOver,
    Quit,
}

/// The running score: the displayed values of all merges so far.
#[derive(Debug, Clone, PartialEq, Eq, Structural)]
pub struct Score(pub u32);

impl Score {
    /// Whether the session ever merged anything; the finished-game
    /// routing shows the winning screen exactly then.
    pub fn has_won(&self) -> (r: bool)
        ensures
            r == (self.0 > 0),
    {
        self.0 > 0
    }
}

impl Default for Score {
    fn default() -> (s: Score)
        ensures
            s.0 == 0,
    {
        Score(0)
    }
}

/// The displayed values `2^p` of a batch of merge events, summed.
pub open spec fn merge_score(ev: Seq<u32>) -> int
    decreases ev.len(),
{
    if ev.len() == 0 {
        0int
    } else {
        merge_score(ev.drop_last()) + pow2(ev.last() as nat)
    }
}

/// A sum of displayed values is never negative.
pub proof fn lemma_merge_score_nonneg(ev: Seq<u32>)
    ensures
        merge_score(ev) >= 0,
    decreases ev.len(),
{
    if ev.len() > 0 {
        lemma_merge_score_nonneg(ev.drop_last());
        lemma_pow2_pos(ev.last() as nat);
    }
}

/// Every partial sum of merge values is at most the whole.
pub proof fn lemma_merge_score_take(ev: Seq<u32>, i: int)
    requires
        0 <= i <= ev.len(),
    ensures
        merge_score(ev.take(i)) <= merge_score(ev),
        merge_score(ev.take(i)) >= 0,
    decreases ev.len(),
{
    lemma_merge_score_nonneg(ev.take(i));
    if i == ev.len() {
        assert(ev.take(i) =~= ev);
    } else {
        lemma_merge_score_take(ev.drop_last(), i);
        assert(ev.drop_last().take(i) =~= ev.take(i));
        lemma_pow2_pos(ev.last() as nat);
    }
}

/// Add `2^power` to the score for every merge of the batch.
pub fn score_from_merge(score: &mut Score, merges: &Vec<Merged>)
    requires
        forall|i: int| 0 <= i < merges@.len() ==> (#[trigger] merges@[i]@) < 32,
        old(score).0 + merge_score(powers_of(merges@)) <= u32::MAX,
    ensures
        final(score).0 == old(score).0 + merge_score(powers_of(merges@)),
{
    let ghost ev = powers_of(merges@);
    let mut i: usize = 0;
    while i < merges.len()
        invariant
            ev == powers_of(merges@),
            ev.len() == merges@.len(),
            forall|q: int| 0 <= q < merges@.len() ==> (#[trigger] merges@[q]@) < 32,
            old(score).0 + merge_score(ev) <= u32::MAX,
            i <= merges@.len(),
            score.0 == old(score).0 + merge_score(ev.take(i as int)),
        decreases merges@.len() - i,
    {
        proof {
            lemma_merge_score_take(ev, i as int + 1);
            assert(ev.take(i as int + 1).drop_last() =~= ev.take(i as int));
            assert(ev.take(i as int + 1).last() == merges@[i as int]@);
        }
        let value = merges[i].power();
        score.0 = score.0 + value;
        i = i + 1;
    }
    proof {
        assert(ev.take(merges@.len() as int) =~= ev);
    }
}

/// Reset the score at game (re)start.
pub fn reset_score(score: &mut Score)
    ensures
        final(score).0 == 0,
{
    score.0 = 0;
}

/// The one-shot win flag: still fresh, or already congratulated this
/// session.
#[derive(Debug, Clone, Copy, Eq, PartialEq, Structural, Hash)]
pub enum Congratulation {
    Congratulated,
    NotYet,
}

impl Default for Congratulation {
    fn default() -> (c: Congratulation)
        ensures
            c == Congratulation::NotYet,
    {
        Congratulation::NotYet
    }
}

/// The exponent whose tile (displayed value `2^11`, i.e. 2048) wins the
/// game.
pub const WIN_POWER: u32 = 11;

/// The win signal fires exactly when the flag is still fresh and some
/// merge of the batch happened at the winning power.
pub open spec fn win_signal(c: Congratulation, ev: Seq<u32>) -> bool {
    c == Congratulation::NotYet && ev.contains(WIN_POWER)
}

/// The one-shot win check: raised only while the flag is `NotYet`, and
/// only by a merge at the winning power.
pub fn trigger_congrats_menu(congrats: Congratulation, merges: &Vec<Merged>) -> (r: bool)
    ensures
        r == win_signal(congrats, powers_of(merges@)),
{
    match congrats {
        Congratulation::Congratulated => false,
        Congratulation::NotYet => {
            let mut i: usize = 0;
            let mut found = false;
            while i < merges.len()
                invariant
                    i <= merges@.len(),
                    found == exists|q: int|
                        0 <= q < i && (#[trigger] merges@[q]@) == WIN_POWER,
                decreases merges@.len() - i,
            {
                if merges[i].exponent() == WIN_POWER {
                    found = true;
                    proof {
                        assert(merges@[i as int]@ == WIN_POWER);
                    }
                }
                i = i + 1;
            }
            proof {
                if found {
                    let q = choose|q: int|
                        0 <= q < merges@.len() && (#[trigger] merges@[q]@) == WIN_POWER;
                    assert(powers_of(merges@)[q] == WIN_POWER);
                    assert(powers_of(merges@).contains(WIN_POWER));
                } else {
                    if powers_of(merges@).contains(WIN_POWER) {
                        let q = choose|q: int|
                            0 <= q < powers_of(merges@).len() && powers_of(merges@)[q]
                                == WIN_POWER;
                        assert(merges@[q]@ == WIN_POWER);
                    }
                }
            }
            found
        },
    }
}

/// Which screen a finished game routes to: quitting returns to the main
/// menu; a full board shows the winning screen if anything was ever
/// merged, the losing screen otherwise.
pub fn finish_game_state(reason: FinishGame, score: &Score) -> (s: AppState)
    ensures
        reason == FinishGame::Quit ==> s == AppState::MainMenu,
        reason == FinishGame::GameOver && score.0 > 0 ==> s == AppState::WonMenu,
        reason == FinishGame::GameOver && score.0 == 0 ==> s == AppState::LostMenu,
{
    match reason {
        FinishGame::Quit => AppState::MainMenu,
        FinishGame::GameOver => {
            if score.has_won() {
                AppState::WonMenu
            } else {
                AppState::LostMenu
            }
        },
    }
}

} // verus!

