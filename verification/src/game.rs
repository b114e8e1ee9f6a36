//! The session facade: one board, its grid, the score and the one-shot
//! win flag, driven by moves and spawns.

use crate::model::{lemma_nonzeros_len, lemma_nonzeros_zero_row, nonzeros, zero_row};
use crate::moving::{move_events, moved_grid, powers_of, Direction, Merged, MoveTracker};
use crate::tiling::{
    free_count, lemma_free_count_no_explicit, placement_ok, random_count, spawn_tile, written,
    Board, Position, SpawnOutcome, SpawnTile, TileKind,
};
use crate::{
    merge_score, score_from_merge, trigger_congrats_menu, win_signal, Congratulation, Score,
};
use vstd::prelude::*;

verus! {

/// What one move reports: the merges it made, whether anything moved,
/// the tile spawned afterwards if the board changed, and whether that
/// spawn found no room.
pub struct MoveOutcome {
    pub merges: Vec<Merged>,
    pub changed: bool,
    pub spawned: Option<(Position, TileKind)>,
    pub lost: bool,
}

/// The two requests a fresh session starts with: two fully random tiles.
pub open spec fn initial_requests() -> Seq<SpawnTile> {
    seq![
        (SpawnTile { position: None, kind: None }),
        (SpawnTile { position: None, kind: None }),
    ]
}

/// A game session. The grid is owned here and mutated only by moves,
/// spawns and resets.
pub struct Game {
    board: Board,
    grid: Vec<u32>,
    score: Score,
    congrats: Congratulation,
}

impl View for Game {
    type V = Seq<u32>;

    closed spec fn view(&self) -> Seq<u32> {
        self.grid@
    }
}

/// A grid of `n` empty cells.
fn zero_grid(n: usize) -> (v: Vec<u32>)
    ensures
        v@ == zero_row(n as nat),
{
    let mut v: Vec<u32> = Vec::new();
    let mut i: usize = 0;
    while i < n
        invariant
            i <= n,
            v@.len() == i,
            forall|k: int| 0 <= k < i ==> v@[k] == 0,
        decreases n - i,
    {
        v.push(0);
        i = i + 1;
    }
    proof {
        assert(v@ =~= zero_row(n as nat));
    }
    v
}

impl Game {
    pub closed spec fn spec_board(&self) -> Board {
        self.board
    }

    pub closed spec fn spec_score(&self) -> u32 {
        self.score.0
    }

    pub closed spec fn spec_congrats(&self) -> Congratulation {
        self.congrats
    }

    pub open spec fn wf(&self) -> bool {
        self.spec_board().wf() && self@.len() == self.spec_board().cells_spec()
    }

    /// A fresh session on an empty board.
    pub fn new(board: Board) -> (g: Game)
        requires
            board.wf(),
        ensures
            g.wf(),
            g.spec_board() == board,
            g@ == zero_row(board.cells_spec() as nat),
            g.spec_score() == 0,
            g.spec_congrats() == Congratulation::NotYet,
    {
        let n = board.cells();
        let grid = zero_grid(n);
        Game { board, grid, score: Score(0), congrats: Congratulation::NotYet }
    }

    /// Restart: clear the grid, zero the score, rearm the win flag.
    pub fn reset(&mut self)
        requires
            old(self).wf(),
        ensures
            final(self).wf(),
            final(self).spec_board() == old(self).spec_board(),
            final(self)@ == zero_row(old(self).spec_board().cells_spec() as nat),
            final(self).spec_score() == 0,
            final(self).spec_congrats() == Congratulation::NotYet,
    {
        let n = self.board.cells();
        self.grid = zero_grid(n);
        self.score = Score(0);
        self.congrats = Congratulation::NotYet;
    }

    pub fn board(&self) -> (b: Board)
        ensures
            b == self.spec_board(),
    {
        self.board
    }

    pub fn grid(&self) -> (g: &Vec<u32>)
        ensures
            g@ == self@,
    {
        &self.grid
    }

    pub fn score(&self) -> (s: u32)
        ensures
            s == self.spec_score(),
    {
        self.score.0
    }

    pub fn congrats(&self) -> (c: Congratulation)
        ensures
            c == self.spec_congrats(),
    {
        self.congrats
    }

    /// Place a batch of spawn requests on the board; see the allocator's
    /// contract. Progress state is untouched.
    pub fn spawn_tiles(&mut self, requests: &Vec<SpawnTile>) -> (o: SpawnOutcome)
        requires
            old(self).wf(),
            forall|q: int|
                0 <= q < requests@.len() ==> ((#[trigger] requests@[q].position) is Some
                    ==> requests@[q].position->Some_0@ < old(self).spec_board().cells_spec()),
        ensures
            final(self).wf(),
            final(self).spec_board() == old(self).spec_board(),
            final(self).spec_score() == old(self).spec_score(),
            final(self).spec_congrats() == old(self).spec_congrats(),
            (o is Lost) <==> free_count(old(self)@, requests@) < random_count(requests@),
            o is Lost ==> final(self)@ == old(self)@,
            o matches SpawnOutcome::Placed(ps) ==> placement_ok(
                old(self)@,
                requests@,
                old(self).spec_board().cells_spec(),
                ps@,
                final(self)@,
            ),
    {
        spawn_tile(&mut self.grid, &self.board, requests)
    }

    /// Start play: reset the session and place the two initial random
    /// tiles. The batch fails only on a board of fewer than two
    /// cells.
    pub fn setup(&mut self) -> (o: SpawnOutcome)
        requires
            old(self).wf(),
        ensures
            final(self).wf(),
            final(self).spec_board() == old(self).spec_board(),
            final(self).spec_score() == 0,
            final(self).spec_congrats() == Congratulation::NotYet,
            (o is Lost) <==> old(self).spec_board().cells_spec() < 2,
            o is Lost ==> final(self)@ == zero_row(old(self).spec_board().cells_spec() as nat),
            o matches SpawnOutcome::Placed(ps) ==> placement_ok(
                zero_row(old(self).spec_board().cells_spec() as nat),
                initial_requests(),
                old(self).spec_board().cells_spec(),
                ps@,
                final(self)@,
            ),
    {
        self.reset();
        let mut requests: Vec<SpawnTile> = Vec::new();
        requests.push(SpawnTile::default());
        requests.push(SpawnTile::default());
        proof {
            assert(requests@ =~= initial_requests());
            let ghost cells = self.spec_board().cells_spec();
            let ghost zg = zero_row(cells as nat);
            lemma_free_count_no_explicit(zg, requests@, cells);
            assert(zg.take(cells) =~= zg);
            lemma_nonzeros_zero_row(cells as nat);
            let ghost s2 = initial_requests();
            let ghost s1 = seq![(SpawnTile { position: None, kind: None })];
            assert(s2.drop_last() =~= s1);
            assert(s1.drop_last() =~= Seq::<SpawnTile>::empty());
            assert(s2.last().position is None);
            assert(s1.last().position is None);
            assert(random_count(Seq::<SpawnTile>::empty()) == 0);
            assert(random_count(s1) == random_count(s1.drop_last()) + 1);
            assert(random_count(s2) == random_count(s2.drop_last()) + 1);
            assert(random_count(initial_requests()) == 2);
        }
        self.spawn_tiles(&requests)
    }

    /// One full move: run the engine over the grid; if anything moved or
    /// merged, commit the new grid and spawn one random tile. Reports
    /// the merges, the spawned tile, and loss when the spawn found no
    /// free cell. Progress state is untouched; feed the merges to
    /// `record_merges`.
    pub fn apply_move(&mut self, direction: Direction) -> (out: MoveOutcome)
        requires
            old(self).wf(),
            forall|i: int| 0 <= i < old(self)@.len() ==> old(self)@[i] < u32::MAX,
        ensures
            final(self).wf(),
            final(self).spec_board() == old(self).spec_board(),
            final(self).spec_score() == old(self).spec_score(),
            final(self).spec_congrats() == old(self).spec_congrats(),
            powers_of(out.merges@) == move_events(
                old(self)@,
                old(self).spec_board(),
                direction,
            ),
            out.changed == (moved_grid(old(self)@, old(self).spec_board(), direction) != old(
                self,
            )@),
            !out.changed ==> final(self)@ == old(self)@ && out.spawned is None && !out.lost,
            out.changed ==> ({
                let moved = moved_grid(old(self)@, old(self).spec_board(), direction);
                &&& (out.lost <==> nonzeros(moved).len() == moved.len())
                &&& (out.lost ==> final(self)@ == moved && out.spawned is None)
                &&& (!out.lost ==> (out.spawned matches Some(pk) && ({
                    &&& pk.0@ < moved.len()
                    &&& moved[pk.0@ as int] == 0
                    &&& pk.1@ == 1 || pk.1@ == 2
                    &&& final(self)@ == moved.update(pk.0@ as int, pk.1@)
                })))
            }),
    {
        let ghost g0 = self@;
        let ghost b = self.spec_board();
        let mut working: Vec<u32> = Vec::new();
        core::mem::swap(&mut working, &mut self.grid);
        let mut tracker = MoveTracker::new(self.board, working);
        tracker.start_tracking();
        let merges = tracker.apply(direction);
        let changed = tracker.has_changed();
        let mut new_grid = tracker.into_tiles();
        let ghost moved = moved_grid(g0, b, direction);
        let mut lost = false;
        let mut spawned: Option<(Position, TileKind)> = None;
        if changed {
            let mut one: Vec<SpawnTile> = Vec::new();
            one.push(SpawnTile::default());
            proof {
                assert(one@.drop_last() =~= Seq::<SpawnTile>::empty());
                assert(one@.last().position is None);
                assert(random_count(Seq::<SpawnTile>::empty()) == 0);
                assert(random_count(one@) == random_count(one@.drop_last()) + 1);
                assert(random_count(one@) == 1);
                lemma_free_count_no_explicit(moved, one@, moved.len() as int);
                assert(moved.take(moved.len() as int) =~= moved);
                lemma_nonzeros_len(moved);
            }
            let o = spawn_tile(&mut new_grid, &self.board, &one);
            match o {
                SpawnOutcome::Lost => {
                    lost = true;
                },
                SpawnOutcome::Placed(ps) => {
                    spawned = Some((ps[0].0, ps[0].1));
                    proof {
                        assert(ps@.drop_last() =~= Seq::<(Position, TileKind)>::empty());
                        assert(written(moved, ps@.drop_last()) == moved);
                        assert(written(moved, ps@) == written(moved, ps@.drop_last()).update(
                            ps@.last().0@ as int,
                            ps@.last().1@,
                        ));
                        assert(ps@.last() == ps@[0]);
                        assert(new_grid@ == moved.update(ps@[0].0@ as int, ps@[0].1@));
                    }
                },
            }
        }
        self.grid = new_grid;
        MoveOutcome { merges, changed, spawned, lost }
    }

    /// Consume the merges of a completed move: add `2^power` to the
    /// score for each, and report the one-shot win signal. The flag
    /// itself moves only when the application acknowledges the signal.
    pub fn record_merges(&mut self, merges: &Vec<Merged>) -> (won: bool)
        requires
            forall|i: int| 0 <= i < merges@.len() ==> (#[trigger] merges@[i]@) < 32,
            old(self).spec_score() + merge_score(powers_of(merges@)) <= u32::MAX,
        ensures
            final(self)@ == old(self)@,
            final(self).spec_board() == old(self).spec_board(),
            final(self).spec_congrats() == old(self).spec_congrats(),
            final(self).spec_score() == old(self).spec_score() + merge_score(powers_of(merges@)),
            won == win_signal(old(self).spec_congrats(), powers_of(merges@)),
    {
        score_from_merge(&mut self.score, merges);
        trigger_congrats_menu(self.congrats, merges)
    }

    /// The application acknowledges the win signal: the flag leaves
    /// `NotYet` for good, so the signal can never fire again this
    /// session.
    pub fn acknowledge_win(&mut self)
        ensures
            final(self)@ == old(self)@,
            final(self).spec_board() == old(self).spec_board(),
            final(self).spec_score() == old(self).spec_score(),
            final(self).spec_congrats() == Congratulation::Congratulated,
    {
        self.congrats = Congratulation::Congratulated;
    }
}

} // verus!
