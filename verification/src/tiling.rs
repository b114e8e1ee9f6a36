//! The board shape, cell positions, tile values, and the spawn allocator
//! that places new tiles on free cells.

use crate::model::{lemma_nonzeros_len, nonzeros};
use vstd::arithmetic::power2::{lemma2_to64, lemma_pow2_unfold, pow2};
use vstd::prelude::*;

verus! {

/// Immutable grid dimensions. A cell's linear index `i` sits in row
/// `i / columns` and column `i % columns`.
#[derive(Debug, Copy, Clone)]
pub struct Board {
    pub columns: usize,
    pub rows: usize,
}

impl Board {
    /// Both dimensions are positive and the cell count fits the machine.
    pub open spec fn wf(&self) -> bool {
        self.rows >= 1 && self.columns >= 1 && self.rows * self.columns <= usize::MAX
    }

    pub open spec fn cells_spec(&self) -> int {
        self.rows * self.columns
    }

    pub fn cells(&self) -> (n: usize)
        requires
            self.wf(),
        ensures
            n == self.cells_spec(),
    {
        self.rows * self.columns
    }
}

impl Default for Board {
    /// The standard four-by-four board.
    fn default() -> (b: Board)
        ensures
            b.rows == 4,
            b.columns == 4,
            b.wf(),
    {
        Board { columns: 4, rows: 4 }
    }
}

/// The position of a tile on the board, as a linear cell index.
#[derive(Debug, PartialEq, Eq, Structural, PartialOrd, Ord, Copy, Clone)]
pub struct Position(pub usize);

impl View for Position {
    type V = usize;

    open spec fn view(&self) -> usize {
        self.0
    }
}

impl Position {
    pub fn index(&self) -> (i: usize)
        ensures
            i == self@,
    {
        self.0
    }
}

impl From<usize> for Position {
    fn from(value: usize) -> (p: Position)
        ensures
            p@ == value,
    {
        Position(value)
    }
}

impl vstd::std_specs::convert::FromSpecImpl<usize> for Position {
    open spec fn obeys_from_spec() -> bool {
        true
    }

    open spec fn from_spec(value: usize) -> Position {
        Position(value)
    }
}

/// The value of a tile, stored as the exponent `p` of its displayed
/// value `2^p`. A grid cell storing `0` is empty, not a tile.
#[derive(Debug, Copy, Clone, PartialEq, Eq, Structural)]
pub struct TileKind(pub u32);

impl View for TileKind {
    type V = u32;

    open spec fn view(&self) -> u32 {
        self.0
    }
}

impl TileKind {
    pub fn from_power(pow: u32) -> (k: TileKind)
        ensures
            k@ == pow,
    {
        TileKind(pow)
    }

    /// The tile whose displayed value is `value`, i.e. the floor of the
    /// base-two logarithm. A zero value has no exponent and is ruled out.
    pub fn from_value(value: u32) -> (k: TileKind)
        requires
            value >= 1,
        ensures
            pow2(k@ as nat) <= value < pow2((k@ + 1) as nat),
            k@ < 32,
    {
        let mut p: u32 = 0;
        let mut v: u32 = value;
        proof {
            lemma2_to64();
        }
        while v >= 2
            invariant
                v >= 1,
                p < 32,
                pow2(p as nat) * v <= value,
                value < pow2(p as nat) * (v + 1),
            decreases v,
        {
            proof {
                lemma_pow2_unfold((p + 1) as nat);
                assert(pow2((p + 1) as nat) * (v / 2) <= pow2(p as nat) * v) by (nonlinear_arith)
                    requires
                        pow2((p + 1) as nat) == 2 * pow2(p as nat),
                        v >= 2,
                        pow2(p as nat) >= 0,
                ;
                assert(pow2(p as nat) * (v + 1) <= pow2((p + 1) as nat) * (v / 2 + 1))
                    by (nonlinear_arith)
                    requires
                        pow2((p + 1) as nat) == 2 * pow2(p as nat),
                        v >= 2,
                        pow2(p as nat) >= 0,
                ;
                assert(p + 1 < 32) by {
                    if p == 31 {
                        lemma2_to64();
                        assert(pow2(31) * v >= pow2(31) * 2) by (nonlinear_arith)
                            requires
                                v >= 2,
                                pow2(31) >= 0,
                        ;
                    }
                }
            }
            v = v / 2;
            p = p + 1;
        }
        proof {
            assert(pow2(p as nat) * 1 == pow2(p as nat));
            assert(pow2(p as nat) * 2 == pow2((p + 1) as nat)) by {
                lemma_pow2_unfold((p + 1) as nat);
            }
        }
        TileKind(p)
    }

    pub fn power(&self) -> (p: usize)
        ensures
            p == self@ as usize,
    {
        self.0 as usize
    }
}

/// A request to place one new tile. A missing position or value asks the
/// allocator to choose it at random.
#[derive(Debug, Clone, Copy)]
pub struct SpawnTile {
    pub position: Option<Position>,
    pub kind: Option<TileKind>,
}

impl Default for SpawnTile {
    /// A fully random request: the allocator picks both cell and value.
    fn default() -> (s: SpawnTile)
        ensures
            s.position is None,
            s.kind is None,
    {
        SpawnTile { position: None, kind: None }
    }
}

/// What the allocator reports: every request placed, or the whole batch
/// abandoned for want of space, the grid left untouched.
#[derive(Debug)]
pub enum SpawnOutcome {
    Placed(Vec<(Position, TileKind)>),
    Lost,
}

/// How many requests of the batch need a random cell.
pub open spec fn random_count(reqs: Seq<SpawnTile>) -> int
    decreases reqs.len(),
{
    if reqs.len() == 0 {
        0int
    } else {
        random_count(reqs.drop_last()) + if reqs.last().position is None {
            1int
        } else {
            0int
        }
    }
}

/// Whether some request of the batch names cell `i` explicitly.
pub open spec fn explicit_cell(reqs: Seq<SpawnTile>, i: int) -> bool {
    exists|q: int|
        0 <= q < reqs.len() && (#[trigger] reqs[q].position) is Some
            && reqs[q].position->Some_0@ == i
}

/// Whether cell `i` may receive a random tile: on the board, empty, and
/// not claimed by an explicit request.
pub open spec fn free_cell(g: Seq<u32>, reqs: Seq<SpawnTile>, i: int) -> bool {
    0 <= i < g.len() && g[i] == 0 && !explicit_cell(reqs, i)
}

/// The number of free cells among the first `n`.
pub open spec fn free_count_upto(g: Seq<u32>, reqs: Seq<SpawnTile>, n: int) -> int
    decreases n,
{
    if n <= 0 {
        0int
    } else {
        free_count_upto(g, reqs, n - 1) + if free_cell(g, reqs, n - 1) {
            1int
        } else {
            0int
        }
    }
}

/// The number of free cells of the whole grid.
pub open spec fn free_count(g: Seq<u32>, reqs: Seq<SpawnTile>) -> int {
    free_count_upto(g, reqs, g.len() as int)
}

/// The grid after writing the placed tiles, in order.
pub open spec fn written(g: Seq<u32>, ps: Seq<(Position, TileKind)>) -> Seq<u32>
    decreases ps.len(),
{
    if ps.len() == 0 {
        g
    } else {
        written(g, ps.drop_last()).update(ps.last().0@ as int, ps.last().1@)
    }
}

/// Everything a successful placement promises: one tile per request,
/// the grid rewritten by exactly those tiles, explicit positions and
/// values honored, random values from the spawn distribution, and
/// random positions distinct free cells.
pub open spec fn placement_ok(
    g: Seq<u32>,
    reqs: Seq<SpawnTile>,
    cells: int,
    ps: Seq<(Position, TileKind)>,
    g2: Seq<u32>,
) -> bool {
    &&& ps.len() == reqs.len()
    &&& g2 == written(g, ps)
    &&& forall|q: int| 0 <= q < reqs.len() ==> (#[trigger] ps[q].0)@ < cells
    &&& forall|q: int|
        0 <= q < reqs.len() ==> ((#[trigger] reqs[q].position) is Some ==> ps[q].0
            == reqs[q].position->Some_0)
    &&& forall|q: int|
        0 <= q < reqs.len() ==> ((#[trigger] reqs[q].kind) is Some ==> ps[q].1
            == reqs[q].kind->Some_0)
    &&& forall|q: int|
        0 <= q < reqs.len() ==> ((#[trigger] reqs[q].kind) is None ==> ps[q].1@ == 1 || ps[q].1@
            == 2)
    &&& forall|q: int|
        0 <= q < reqs.len() ==> ((#[trigger] reqs[q].position) is None ==> free_cell(
            g,
            reqs,
            ps[q].0@ as int,
        ))
    &&& forall|q1: int, q2: int|
        0 <= q1 < q2 < reqs.len() && reqs[q1].position is None && reqs[q2].position is None ==> (
        #[trigger] ps[q1].0)@ != (#[trigger] ps[q2].0)@
}

/// With no explicit position in the batch, the free cells are exactly
/// the empty cells.
pub proof fn lemma_free_count_no_explicit(g: Seq<u32>, reqs: Seq<SpawnTile>, n: int)
    requires
        forall|q: int| 0 <= q < reqs.len() ==> (#[trigger] reqs[q].position) is None,
        0 <= n <= g.len(),
    ensures
        free_count_upto(g, reqs, n) == n - nonzeros(g.take(n)).len(),
    decreases n,
{
    if n > 0 {
        lemma_free_count_no_explicit(g, reqs, n - 1);
        assert(g.take(n).drop_last() =~= g.take(n - 1));
        assert(!explicit_cell(reqs, n - 1)) by {
            if explicit_cell(reqs, n - 1) {
                let q = choose|q: int|
                    0 <= q < reqs.len() && (#[trigger] reqs[q].position) is Some
                        && reqs[q].position->Some_0@ == n - 1;
                assert(false);
            }
        }
        lemma_nonzeros_len(g.take(n - 1));
    }
}

pub proof fn lemma_random_count_nonneg(reqs: Seq<SpawnTile>)
    ensures
        random_count(reqs) >= 0,
    decreases reqs.len(),
{
    if reqs.len() > 0 {
        lemma_random_count_nonneg(reqs.drop_last());
    }
}

/// The random requests of a longer prefix are at least those of a
/// shorter one.
pub proof fn lemma_random_count_mono(reqs: Seq<SpawnTile>, x: int, y: int)
    requires
        0 <= x <= y <= reqs.len(),
    ensures
        random_count(reqs.take(x)) <= random_count(reqs.take(y)),
    decreases y - x,
{
    if x < y {
        lemma_random_count_mono(reqs, x, y - 1);
        assert(reqs.take(y).drop_last() =~= reqs.take(y - 1));
    }
}

/// Whether some request of the batch names cell `i`, decided by a scan.
fn names_cell(requests: &Vec<SpawnTile>, i: usize) -> (r: bool)
    ensures
        r == explicit_cell(requests@, i as int),
{
    let mut q: usize = 0;
    while q < requests.len()
        invariant
            q <= requests@.len(),
            forall|a: int|
                0 <= a < q ==> ((#[trigger] requests@[a].position) is Some
                    ==> requests@[a].position->Some_0@ != i),
        decreases requests@.len() - q,
    {
        if let Some(p) = requests[q].position {
            if p.index() == i {
                proof {
                    assert((requests@[q as int].position) is Some
                        && requests@[q as int].position->Some_0@ == i as int);
                }
                return true;
            }
        }
        q = q + 1;
    }
    proof {
        if explicit_cell(requests@, i as int) {
            let a = choose|a: int|
                0 <= a < requests@.len() && (#[trigger] requests@[a].position) is Some
                    && requests@[a].position->Some_0@ == i as int;
            assert(false);
        }
    }
    false
}

/// Relies on rand 0.8's `rand::seq::index::sample`: it returns exactly
/// `k` distinct indices from `0..n`, drawn uniformly, and panics only
/// when `k > n`, which the contract rules out; on `rand::thread_rng`
/// for the generator; and on `IndexVec::into_vec` for the plain
/// representation of the result.
#[verifier::external_body]
fn sample_distinct(n: usize, k: usize) -> (r: Vec<usize>)
    requires
        k <= n,
    ensures
        r@.len() == k,
        forall|a: int| 0 <= a < r@.len() ==> #[trigger] r@[a] < n,
        forall|a: int, b: int| 0 <= a < b < r@.len() ==> r@[a] != r@[b],
{
    rand::seq::index::sample(&mut rand::thread_rng(), n, k).into_vec()
}

/// Relies on rand 0.8's `rand::Rng::gen_range`: a value drawn uniformly
/// from `0..m`, panicking only on an empty range, which the contract
/// rules out; and on `rand::thread_rng` for the generator.
#[verifier::external_body]
fn draw_below(m: u32) -> (r: u32)
    requires
        m > 0,
    ensures
        r < m,
{
    rand::Rng::gen_range(&mut rand::thread_rng(), 0..m)
}

impl TileKind {
    /// A fresh random tile value: power 1 (a "2" tile) with weight 7,
    /// power 2 (a "4" tile) with weight 3.
    pub fn new_tile_value() -> (k: TileKind)
        ensures
            k@ == 1 || k@ == 2,
    {
        let d = draw_below(10);
        if d < 7 {
            TileKind(1)
        } else {
            TileKind(2)
        }
    }
}

/// The spawn allocator: resolve a batch of requests against the grid.
/// Explicit positions and values are honored verbatim; missing positions
/// are drawn without replacement from the free cells, missing values
/// from the weighted tile distribution. If the free cells cannot seat
/// every random request, nothing is placed and the batch is lost.
#[verifier::loop_isolation(false)]
pub fn spawn_tile(grid: &mut Vec<u32>, board: &Board, requests: &Vec<SpawnTile>) -> (o:
    SpawnOutcome)
    requires
        board.wf(),
        old(grid)@.len() == board.cells_spec(),
        forall|q: int|
            0 <= q < requests@.len() ==> ((#[trigger] requests@[q].position) is Some
                ==> requests@[q].position->Some_0@ < board.cells_spec()),
    ensures
        (o is Lost) <==> free_count(old(grid)@, requests@) < random_count(requests@),
        o is Lost ==> final(grid)@ == old(grid)@,
        final(grid)@.len() == old(grid)@.len(),
        o matches SpawnOutcome::Placed(ps) ==> placement_ok(
            old(grid)@,
            requests@,
            board.cells_spec(),
            ps@,
            final(grid)@,
        ),
{
    let ghost g0 = old(grid)@;
    let ghost reqs = requests@;
    let total = board.cells();
    let mut random_needed: usize = 0;
    let mut q: usize = 0;
    while q < requests.len()
        invariant
            q <= reqs.len(),
            random_needed <= q,
            random_needed == random_count(reqs.take(q as int)),
        decreases reqs.len() - q,
    {
        proof {
            assert(reqs.take(q as int + 1).drop_last() =~= reqs.take(q as int));
        }
        if requests[q].position.is_none() {
            random_needed = random_needed + 1;
        }
        q = q + 1;
    }
    proof {
        assert(reqs.take(reqs.len() as int) =~= reqs);
    }
    let mut free: Vec<usize> = Vec::new();
    let mut i: usize = 0;
    while i < total
        invariant
            i <= total,
            free@.len() == free_count_upto(g0, reqs, i as int),
            forall|a: int| 0 <= a < free@.len() ==> free_cell(g0, reqs, #[trigger] free@[a] as int),
            forall|a: int| 0 <= a < free@.len() ==> #[trigger] free@[a] < i,
            forall|a: int, b: int| 0 <= a < b < free@.len() ==> free@[a] < free@[b],
        decreases total - i,
    {
        let empty = grid[i] == 0;
        let named = names_cell(requests, i);
        if empty && !named {
            free.push(i);
        }
        i = i + 1;
    }
    if free.len() < random_needed {
        return SpawnOutcome::Lost;
    }
    let chosen = sample_distinct(free.len(), random_needed);
    let mut placed: Vec<(Position, TileKind)> = Vec::new();
    let mut next_random: usize = 0;
    let mut w: usize = 0;
    while w < requests.len()
        invariant
            w <= reqs.len(),
            placed@.len() == w,
            next_random == random_count(reqs.take(w as int)),
            next_random <= random_needed,
            grid@.len() == g0.len(),
            grid@ == written(g0, placed@),
            forall|a: int| 0 <= a < w ==> (#[trigger] placed@[a].0)@ < total,
            forall|a: int|
                0 <= a < w ==> ((#[trigger] reqs[a].position) is Some ==> placed@[a].0
                    == reqs[a].position->Some_0),
            forall|a: int|
                0 <= a < w ==> ((#[trigger] reqs[a].kind) is Some ==> placed@[a].1
                    == reqs[a].kind->Some_0),
            forall|a: int|
                0 <= a < w ==> ((#[trigger] reqs[a].kind) is None ==> placed@[a].1@ == 1
                    || placed@[a].1@ == 2),
            forall|a: int|
                0 <= a < w ==> ((#[trigger] reqs[a].position) is None ==> placed@[a].0@
                    == free@[chosen@[random_count(reqs.take(a)) as int] as int] && free_cell(
                    g0,
                    reqs,
                    placed@[a].0@ as int,
                )),
        decreases reqs.len() - w,
    {
        proof {
            assert(reqs.take(w as int + 1).drop_last() =~= reqs.take(w as int));
            lemma_random_count_mono(reqs, w as int + 1, reqs.len() as int);
            assert(reqs.take(reqs.len() as int) =~= reqs);
        }
        let r = requests[w];
        let pos_idx: usize = match r.position {
            Some(p) => p.index(),
            None => {
                let c = chosen[next_random];
                let f = free[c];
                next_random = next_random + 1;
                f
            },
        };
        let val: TileKind = match r.kind {
            Some(k) => k,
            None => TileKind::new_tile_value(),
        };
        let ghost placed_pre = placed@;
        grid.set(pos_idx, val.0);
        placed.push((Position(pos_idx), val));
        proof {
            assert(placed@.drop_last() =~= placed_pre);
            assert(placed@.last() == (Position(pos_idx), val));
            assert(grid@ == written(g0, placed@));
        }
        w = w + 1;
    }
    proof {
        assert(reqs.take(reqs.len() as int) =~= reqs);
        assert forall|q1: int, q2: int|
            0 <= q1 < q2 < reqs.len() && reqs[q1].position is None && reqs[q2].position
                is None implies (#[trigger] placed@[q1].0)@ != (#[trigger] placed@[q2].0)@ by {
            let r1 = random_count(reqs.take(q1));
            let r2 = random_count(reqs.take(q2));
            assert(reqs.take(q1 + 1).drop_last() =~= reqs.take(q1));
            assert(reqs.take(q2 + 1).drop_last() =~= reqs.take(q2));
            lemma_random_count_mono(reqs, q1 + 1, q2);
            lemma_random_count_mono(reqs, q2 + 1, reqs.len() as int);
            lemma_random_count_nonneg(reqs.take(q1));
            assert(r1 < r2);
            assert(r2 < random_needed);
            assert(chosen@[r1] != chosen@[r2]);
            let c1 = chosen@[r1] as int;
            let c2 = chosen@[r2] as int;
            if c1 < c2 {
                assert(free@[c1] < free@[c2]);
            } else {
                assert(free@[c2] < free@[c1]);
            }
        }
    }
    SpawnOutcome::Placed(placed)
}

} // verus!
