//! The directional slide-merge engine. A move extracts each row or
//! column as a stack in leading-edge order, compacts it, merges adjacent
//! equal tiles once, compacts again, and writes the stack back.

use crate::model::{
    compact_seq, gapless, lemma_compact_bounded, lemma_compact_fixed_iff_gapless,
    lemma_compact_gapless, lemma_compact_idempotent, lemma_merge_pass_no_events,
    lemma_merged_results_add, lemma_merged_sources_add, lemma_moved_stack_conserves,
    lemma_moved_stack_fixed_iff, lemma_moved_stack_len, lemma_nonzeros_full_iff,
    lemma_nonzeros_len, lemma_seq_neq_index, lemma_tile_powers_push, lemma_tile_powers_update,
    merge_at, merge_pass, merge_pass_events, merged_results, merged_sources, moved_stack,
    nonzeros, stack_events, tile_powers, unit_power,
};
use crate::tiling::{Board, Position, TileKind};
use vstd::arithmetic::div_mod::{
    lemma_div_is_ordered, lemma_div_pos_is_pos, lemma_fundamental_div_mod,
    lemma_fundamental_div_mod_converse_div, lemma_fundamental_div_mod_converse_mod,
    lemma_mod_bound,
};
use vstd::arithmetic::power2::pow2;
use vstd::bits::{lemma_u32_pow2_no_overflow, lemma_u32_shl_is_mul};
use vstd::prelude::*;

verus! {

/// The four directions a move can push the tiles toward.
#[derive(Debug, Copy, Clone, PartialEq, Eq, Structural)]
pub enum Direction {
    Left,
    Up,
    Right,
    Down,
}

/// Notification that two equal tiles combined; it carries the exponent
/// the two source tiles had before the merge.
#[derive(Debug, Clone)]
pub struct Merged(u32);

impl View for Merged {
    type V = u32;

    closed spec fn view(&self) -> u32 {
        self.0
    }
}

impl Merged {
    pub fn from_power(pow: u32) -> (m: Merged)
        ensures
            m@ == pow,
    {
        Merged(pow)
    }

    /// The exponent itself, as the win check and the tests read it.
    pub fn exponent(&self) -> (p: u32)
        ensures
            p == self@,
    {
        self.0
    }

    /// The displayed value of each source tile, `2^power`.
    pub fn power(&self) -> (v: u32)
        requires
            self@ < 32,
        ensures
            v == pow2(self@ as nat),
    {
        proof {
            lemma_u32_pow2_no_overflow(self@ as nat);
            lemma_u32_shl_is_mul(1u32, self.0);
        }
        1u32 << self.0
    }
}

/// The powers carried by a batch of merge notifications.
pub open spec fn powers_of(ms: Seq<Merged>) -> Seq<u32> {
    ms.map_values(|m: Merged| m@)
}

// ------------------------------------------------------------------
// The direction-dependent correspondence between grid cells and
// (stack, slot) coordinates.
// ------------------------------------------------------------------

/// How many stacks a move in direction `d` works on.
pub open spec fn dir_stack_count(b: Board, d: Direction) -> int {
    match d {
        Direction::Left | Direction::Right => b.rows as int,
        Direction::Up | Direction::Down => b.columns as int,
    }
}

/// How many cells each such stack holds.
pub open spec fn dir_stack_len(b: Board, d: Direction) -> int {
    match d {
        Direction::Left | Direction::Right => b.columns as int,
        Direction::Up | Direction::Down => b.rows as int,
    }
}

/// The linear cell index of slot `j` of stack `s`, counting slots from
/// the edge the tiles move toward.
pub open spec fn slot_cell(b: Board, d: Direction, s: int, j: int) -> int {
    match d {
        Direction::Left => s * b.columns + j,
        Direction::Right => s * b.columns + (b.columns - 1 - j),
        Direction::Up => j * b.columns + s,
        Direction::Down => (b.rows - 1 - j) * b.columns + s,
    }
}

/// The stack that cell `i` belongs to for direction `d`.
pub open spec fn cell_stack(b: Board, d: Direction, i: int) -> int {
    match d {
        Direction::Left | Direction::Right => i / (b.columns as int),
        Direction::Up | Direction::Down => i % (b.columns as int),
    }
}

/// The slot that cell `i` occupies within its stack for direction `d`.
pub open spec fn cell_slot(b: Board, d: Direction, i: int) -> int {
    match d {
        Direction::Left => i % (b.columns as int),
        Direction::Right => b.columns - 1 - (i % (b.columns as int)),
        Direction::Up => i / (b.columns as int),
        Direction::Down => b.rows - 1 - (i / (b.columns as int)),
    }
}

/// Stack `s` of the grid, in leading-edge order.
pub open spec fn stack_of(g: Seq<u32>, b: Board, d: Direction, s: int) -> Seq<u32> {
    Seq::new(dir_stack_len(b, d) as nat, |j: int| g[slot_cell(b, d, s, j)])
}

/// The whole grid after a move in direction `d`: every stack compacted,
/// merged once, and compacted again.
pub open spec fn moved_grid(g: Seq<u32>, b: Board, d: Direction) -> Seq<u32> {
    Seq::new(
        g.len(),
        |i: int| moved_stack(stack_of(g, b, d, cell_stack(b, d, i)))[cell_slot(b, d, i)],
    )
}

/// The merge events of the first `s` stacks, in stack order.
pub open spec fn events_upto(g: Seq<u32>, b: Board, d: Direction, s: int) -> Seq<u32>
    decreases s,
{
    if s <= 0 {
        Seq::empty()
    } else {
        events_upto(g, b, d, s - 1) + stack_events(stack_of(g, b, d, s - 1))
    }
}

/// All merge events of a move in direction `d`, in stack order.
pub open spec fn move_events(g: Seq<u32>, b: Board, d: Direction) -> Seq<u32> {
    events_upto(g, b, d, dir_stack_count(b, d))
}

/// The cell/(stack, slot) correspondence is a bijection: every slot of
/// every stack is a cell of the grid, and every cell sits in exactly one
/// slot of one stack.
pub proof fn lemma_grid_bijection(b: Board, d: Direction)
    requires
        b.wf(),
    ensures
        forall|s: int, j: int|
            0 <= s < dir_stack_count(b, d) && 0 <= j < dir_stack_len(b, d) ==> 0 <= #[trigger] slot_cell(b, d, s, j) < b.cells_spec()
                && cell_stack(b, d, slot_cell(b, d, s, j)) == s
                && cell_slot(b, d, slot_cell(b, d, s, j)) == j,
        forall|i: int|
            0 <= i < b.cells_spec() ==> 0 <= #[trigger] cell_stack(b, d, i) < dir_stack_count(b, d)
                && 0 <= cell_slot(b, d, i) < dir_stack_len(b, d)
                && slot_cell(b, d, cell_stack(b, d, i), cell_slot(b, d, i)) == i,
{
    let r = b.rows as int;
    let c = b.columns as int;
    assert forall|s: int, j: int|
        0 <= s < dir_stack_count(b, d) && 0 <= j < dir_stack_len(b, d) implies 0
        <= #[trigger] slot_cell(b, d, s, j) < b.cells_spec() && cell_stack(
        b,
        d,
        slot_cell(b, d, s, j),
    ) == s && cell_slot(b, d, slot_cell(b, d, s, j)) == j by {
        match d {
            Direction::Left => {
                assert(0 <= s * c + j < r * c) by (nonlinear_arith)
                    requires
                        0 <= s < r,
                        0 <= j < c,
                ;
                lemma_fundamental_div_mod_converse_div(s * c + j, c, s, j);
                lemma_fundamental_div_mod_converse_mod(s * c + j, c, s, j);
            },
            Direction::Right => {
                let jj = c - 1 - j;
                assert(0 <= s * c + jj < r * c) by (nonlinear_arith)
                    requires
                        0 <= s < r,
                        0 <= jj < c,
                ;
                lemma_fundamental_div_mod_converse_div(s * c + jj, c, s, jj);
                lemma_fundamental_div_mod_converse_mod(s * c + jj, c, s, jj);
            },
            Direction::Up => {
                assert(0 <= j * c + s < r * c) by (nonlinear_arith)
                    requires
                        0 <= j < r,
                        0 <= s < c,
                ;
                lemma_fundamental_div_mod_converse_div(j * c + s, c, j, s);
                lemma_fundamental_div_mod_converse_mod(j * c + s, c, j, s);
            },
            Direction::Down => {
                let jj = r - 1 - j;
                assert(0 <= jj * c + s < r * c) by (nonlinear_arith)
                    requires
                        0 <= jj < r,
                        0 <= s < c,
                ;
                lemma_fundamental_div_mod_converse_div(jj * c + s, c, jj, s);
                lemma_fundamental_div_mod_converse_mod(jj * c + s, c, jj, s);
            },
        }
    }
    assert forall|i: int| 0 <= i < b.cells_spec() implies 0 <= #[trigger] cell_stack(b, d, i)
        < dir_stack_count(b, d) && 0 <= cell_slot(b, d, i) < dir_stack_len(b, d) && slot_cell(
        b,
        d,
        cell_stack(b, d, i),
        cell_slot(b, d, i),
    ) == i by {
        lemma_fundamental_div_mod(i, c);
        lemma_mod_bound(i, c);
        lemma_div_pos_is_pos(i, c);
        assert((r * c - 1) / c == r - 1) by {
            assert((r - 1) * c + (c - 1) == r * c - 1) by (nonlinear_arith);
            lemma_fundamental_div_mod_converse_div(r * c - 1, c, r - 1, c - 1);
        }
        lemma_div_is_ordered(i, r * c - 1, c);
        assert(i == (i / c) * c + (i % c)) by (nonlinear_arith)
            requires
                i == c * (i / c) + (i % c),
        ;
    }
}

// ------------------------------------------------------------------
// Rewriting one stack of a grid, described cell by cell. This is the
// bridge from the per-stack facts of the model to grid-level laws.
// ------------------------------------------------------------------

/// `h` with `v[a]` written at cell `cells[a]`, for the first `j` pairs.
pub(crate) open spec fn overwrite(h: Seq<u32>, cells: Seq<int>, v: Seq<u32>, j: int) -> Seq<u32>
    decreases j,
{
    if j <= 0 {
        h
    } else {
        overwrite(h, cells, v, j - 1).update(cells[j - 1], v[j - 1])
    }
}

/// Whether `i` is one of the first `j` cells of the list.
pub(crate) open spec fn among(cells: Seq<int>, j: int, i: int) -> bool {
    exists|a: int| 0 <= a < j && #[trigger] cells[a] == i
}

/// Cell view of `overwrite`: each written cell holds its new value,
/// every other cell is untouched.
pub(crate) proof fn lemma_overwrite_index(h: Seq<u32>, cells: Seq<int>, v: Seq<u32>, j: int)
    requires
        0 <= j <= cells.len(),
        j <= v.len(),
        forall|a: int| 0 <= a < cells.len() ==> 0 <= #[trigger] cells[a] < h.len(),
        forall|a: int, b: int| 0 <= a < b < cells.len() ==> cells[a] != cells[b],
    ensures
        overwrite(h, cells, v, j).len() == h.len(),
        forall|a: int| 0 <= a < j ==> overwrite(h, cells, v, j)[#[trigger] cells[a]] == v[a],
        forall|i: int|
            #![trigger overwrite(h, cells, v, j)[i]]
            0 <= i < h.len() && !among(cells, j, i) ==> overwrite(h, cells, v, j)[i] == h[i],
    decreases j,
{
    if j > 0 {
        lemma_overwrite_index(h, cells, v, j - 1);
        let r0 = overwrite(h, cells, v, j - 1);
        let r1 = overwrite(h, cells, v, j);
        assert forall|a: int| 0 <= a < j implies r1[#[trigger] cells[a]] == v[a] by {
            if a < j - 1 {
                assert(cells[a] != cells[j - 1]);
            }
        }
        assert forall|i: int| 0 <= i < h.len() && !among(cells, j, i) implies #[trigger] r1[i]
            == h[i] by {
            assert(!among(cells, j - 1, i)) by {
                if among(cells, j - 1, i) {
                    let a = choose|a: int| 0 <= a < j - 1 && #[trigger] cells[a] == i;
                    assert(cells[a] == i);
                }
            }
            assert(cells[j - 1] != i);
        }
    }
}

/// Multiset view of `overwrite`: the grid trades the old values of the
/// written cells for the new ones.
pub(crate) proof fn lemma_overwrite_powers(h: Seq<u32>, cells: Seq<int>, v: Seq<u32>, j: int)
    requires
        0 <= j <= cells.len(),
        j <= v.len(),
        forall|a: int| 0 <= a < cells.len() ==> 0 <= #[trigger] cells[a] < h.len(),
        forall|a: int, b: int| 0 <= a < b < cells.len() ==> cells[a] != cells[b],
    ensures
        tile_powers(overwrite(h, cells, v, j)).add(
            tile_powers(Seq::new(j as nat, |a: int| h[cells[a]])),
        ) == tile_powers(h).add(tile_powers(v.take(j))),
    decreases j,
{
    let taken = Seq::new(j as nat, |a: int| h[cells[a]]);
    if j == 0 {
        assert(taken =~= Seq::<u32>::empty());
        assert(v.take(0) =~= Seq::<u32>::empty());
        assert(tile_powers(overwrite(h, cells, v, 0)).add(tile_powers(taken)) =~= tile_powers(
            h,
        ).add(tile_powers(v.take(0))));
    } else {
        lemma_overwrite_powers(h, cells, v, j - 1);
        lemma_overwrite_index(h, cells, v, j - 1);
        let r0 = overwrite(h, cells, v, j - 1);
        let prev = Seq::new((j - 1) as nat, |a: int| h[cells[a]]);
        assert(r0[cells[j - 1]] == h[cells[j - 1]]) by {
            assert(!among(cells, j - 1, cells[j - 1])) by {
                if among(cells, j - 1, cells[j - 1]) {
                    let a = choose|a: int| 0 <= a < j - 1 && #[trigger] cells[a] == cells[j - 1];
                    assert(cells[a] == cells[j - 1]);
                }
            }
        }
        lemma_tile_powers_update(r0, cells[j - 1], v[j - 1]);
        assert(taken =~= prev.push(h[cells[j - 1]]));
        assert(v.take(j) =~= v.take(j - 1).push(v[j - 1]));
        lemma_tile_powers_push(prev, h[cells[j - 1]]);
        lemma_tile_powers_push(v.take(j - 1), v[j - 1]);
        assert forall|x: u32|
            #![trigger tile_powers(h).count(x)]
            tile_powers(overwrite(h, cells, v, j)).add(tile_powers(taken)).count(x)
                == tile_powers(h).add(tile_powers(v.take(j))).count(x) by {
            assert(tile_powers(overwrite(h, cells, v, j)).add(
                unit_power(r0[cells[j - 1]]),
            ).count(x) == tile_powers(r0).add(unit_power(v[j - 1])).count(x));
            assert(tile_powers(r0).add(tile_powers(prev)).count(x) == tile_powers(h).add(
                tile_powers(v.take(j - 1)),
            ).count(x));
        }
        assert(tile_powers(overwrite(h, cells, v, j)).add(tile_powers(taken)) =~= tile_powers(
            h,
        ).add(tile_powers(v.take(j))));
    }
}

/// The grid with the first `s` stacks already moved and the rest still
/// as they were: the intermediate states of a move, stack by stack.
pub(crate) open spec fn hybrid_grid(g: Seq<u32>, b: Board, d: Direction, s: int) -> Seq<u32> {
    Seq::new(
        g.len(),
        |i: int|
            if cell_stack(b, d, i) < s {
                moved_grid(g, b, d)[i]
            } else {
                g[i]
            },
    )
}

/// Conservation of the whole grid's tiles, stack by stack: after the
/// first `s` stacks have moved, the grid's tiles together with the
/// sources of the merges so far are the original tiles together with
/// their results.
pub(crate) proof fn lemma_hybrid_conserves(g: Seq<u32>, b: Board, d: Direction, s: int)
    requires
        b.wf(),
        g.len() == b.cells_spec(),
        forall|i: int| 0 <= i < g.len() ==> g[i] < u32::MAX,
        0 <= s <= dir_stack_count(b, d),
    ensures
        tile_powers(hybrid_grid(g, b, d, s)).add(merged_sources(events_upto(g, b, d, s)))
            == tile_powers(g).add(merged_results(events_upto(g, b, d, s))),
    decreases s,
{
    lemma_grid_bijection(b, d);
    if s == 0 {
        assert(hybrid_grid(g, b, d, 0) =~= g);
        assert(tile_powers(g).add(merged_sources(Seq::<u32>::empty())) =~= tile_powers(g).add(
            merged_results(Seq::<u32>::empty()),
        ));
    } else {
        lemma_hybrid_conserves(g, b, d, s - 1);
        let len = dir_stack_len(b, d);
        let st = stack_of(g, b, d, s - 1);
        let mv = moved_stack(st);
        let cells = Seq::new(len as nat, |a: int| slot_cell(b, d, s - 1, a));
        let h0 = hybrid_grid(g, b, d, s - 1);
        let h1 = hybrid_grid(g, b, d, s);
        let ev = stack_events(st);
        let e0 = events_upto(g, b, d, s - 1);
        let e1 = events_upto(g, b, d, s);
        assert(e1 == e0 + ev);
        assert(forall|k: int| 0 <= k < st.len() ==> st[k] < u32::MAX) by {
            assert(forall|k: int|
                0 <= k < st.len() ==> st[k] == g[#[trigger] slot_cell(b, d, s - 1, k)]);
        }
        lemma_moved_stack_len(st);
        assert(forall|a: int, c: int| 0 <= a < c < cells.len() ==> cells[a] != cells[c]) by {
            assert(forall|a: int|
                0 <= a < cells.len() ==> cell_slot(b, d, #[trigger] cells[a]) == a);
        }
        lemma_overwrite_index(h0, cells, mv, len);
        lemma_overwrite_powers(h0, cells, mv, len);
        // the next hybrid grid is the previous one with this stack rewritten
        assert forall|i: int| 0 <= i < g.len() implies h1[i] == overwrite(h0, cells, mv, len)[i]
            by {
            let t = cell_stack(b, d, i);
            let a = cell_slot(b, d, i);
            if t == s - 1 {
                assert(cells[a] == i);
                assert(overwrite(h0, cells, mv, len)[cells[a]] == mv[a]);
                assert(h1[i] == moved_grid(g, b, d)[i]);
            } else {
                assert(!among(cells, len, i)) by {
                    if among(cells, len, i) {
                        let w = choose|w: int| 0 <= w < len && #[trigger] cells[w] == i;
                        assert(cell_stack(b, d, cells[w]) == s - 1);
                    }
                }
            }
        }
        assert(h1 =~= overwrite(h0, cells, mv, len));
        // the old values of this stack's cells are the stack itself
        assert(Seq::new(len as nat, |a: int| h0[cells[a]]) =~= st) by {
            assert forall|a: int| 0 <= a < len implies h0[cells[a]] == st[a] by {
                assert(cell_stack(b, d, cells[a]) == s - 1);
            }
        }
        assert(mv.take(len) =~= mv);
        lemma_moved_stack_conserves(st);
        lemma_merged_sources_add(e0, ev);
        lemma_merged_results_add(e0, ev);
        assert forall|x: u32|
            #![trigger tile_powers(g).count(x)]
            tile_powers(h1).add(merged_sources(e1)).count(x) == tile_powers(g).add(
                merged_results(e1),
            ).count(x) by {
            assert(tile_powers(h1).add(tile_powers(st)).count(x) == tile_powers(h0).add(
                tile_powers(mv),
            ).count(x));
            assert(tile_powers(mv).add(merged_sources(ev)).count(x) == tile_powers(st).add(
                merged_results(ev),
            ).count(x));
            assert(tile_powers(h0).add(merged_sources(e0)).count(x) == tile_powers(g).add(
                merged_results(e0),
            ).count(x));
            assert(merged_sources(e1).count(x) == merged_sources(e0).count(x) + merged_sources(
                ev,
            ).count(x));
            assert(merged_results(e1).count(x) == merged_results(e0).count(x) + merged_results(
                ev,
            ).count(x));
        }
        assert(tile_powers(h1).add(merged_sources(e1)) =~= tile_powers(g).add(
            merged_results(e1),
        ));
    }
}

// ------------------------------------------------------------------
// The two passes over one stack.
// ------------------------------------------------------------------

/// Compaction: slide every tile to the first free slot toward the
/// leading edge. Reports whether any tile actually moved.
fn go_stack(v: &mut Vec<u32>) -> (changed: bool)
    ensures
        final(v)@ == compact_seq(old(v)@),
        changed == (final(v)@ != old(v)@),
{
    let n = v.len();
    let mut free: usize = 0;
    let mut cursor: usize = 0;
    let mut changed = false;
    while cursor < n
        invariant
            n == v.len(),
            n == old(v)@.len(),
            free <= cursor <= n,
            v@.take(free as int) == nonzeros(old(v)@.take(cursor as int)),
            forall|i: int| free <= i < cursor ==> v@[i] == 0,
            forall|i: int| cursor <= i < n ==> v@[i] == old(v)@[i],
            changed == !gapless(old(v)@.take(cursor as int)),
        decreases n - cursor,
    {
        let ghost pre = v@;
        let ghost taken = old(v)@.take(cursor as int);
        proof {
            assert(old(v)@.take(cursor as int + 1) =~= taken.push(old(v)@[cursor as int]));
            lemma_nonzeros_len(taken);
            lemma_nonzeros_full_iff(taken);
        }
        let k = v[cursor];
        if k != 0 {
            if free != cursor {
                changed = true;
            }
            v.set(cursor, 0);
            v.set(free, k);
            proof {
                assert(nonzeros(taken.push(k)) == nonzeros(
                    taken,
                ).push(k)) by {
                    assert(taken.push(k).drop_last() =~= taken);
                }
                assert(v@.take(free as int + 1) =~= pre.take(free as int).push(k));
                if free == cursor {
                    assert(gapless(taken.push(k))) by {
                        assert(forall|q: int| 0 <= q < taken.len() ==> taken.push(k)[q] != 0);
                    }
                } else {
                    assert(!gapless(taken.push(k))) by {
                        assert(nonzeros(taken).len() < taken.len());
                        let w = choose|w: int| 0 <= w < taken.len() && taken[w] == 0;
                        assert(taken.push(k)[w] == 0);
                        assert(taken.push(k)[taken.len() as int] == k);
                    }
                }
            }
            free = free + 1;
        } else {
            proof {
                assert(nonzeros(taken.push(0u32)) == nonzeros(taken))
                    by {
                    assert(taken.push(0u32).drop_last() =~= taken);
                }
                assert(gapless(taken.push(0u32)) <==> gapless(taken)) by {
                    if gapless(taken) {
                        assert forall|q1: int, q2: int|
                            0 <= q1 < q2 < taken.push(0u32).len() && #[trigger] taken.push(
                                0u32,
                            )[q1] == 0 implies #[trigger] taken.push(0u32)[q2] == 0 by {
                            if q2 < taken.len() {
                                assert(taken[q1] == 0);
                            }
                        }
                    }
                    if !gapless(taken) {
                        let (w1, w2) = choose|w1: int, w2: int|
                            0 <= w1 < w2 < taken.len() && #[trigger] taken[w1] == 0
                                && #[trigger] taken[w2] != 0;
                        assert(taken.push(0u32)[w1] == 0);
                        assert(taken.push(0u32)[w2] != 0);
                    }
                }
            }
        }
        cursor = cursor + 1;
    }
    proof {
        assert(old(v)@.take(n as int) =~= old(v)@);
        lemma_nonzeros_len(old(v)@);
        assert(v@ =~= compact_seq(old(v)@));
        lemma_compact_fixed_iff_gapless(old(v)@);
    }
    changed
}

/// How many stacks the move works on, as an executable value.
fn exec_stack_count(board: &Board, direction: Direction) -> (n: usize)
    ensures
        n == dir_stack_count(*board, direction),
{
    match direction {
        Direction::Left | Direction::Right => board.rows,
        Direction::Up | Direction::Down => board.columns,
    }
}

/// How many cells each stack holds, as an executable value.
fn exec_stack_len(board: &Board, direction: Direction) -> (n: usize)
    ensures
        n == dir_stack_len(*board, direction),
{
    match direction {
        Direction::Left | Direction::Right => board.columns,
        Direction::Up | Direction::Down => board.rows,
    }
}

/// The linear cell index of slot `j` of stack `s`.
fn cell_at(board: &Board, direction: Direction, s: usize, j: usize) -> (i: usize)
    requires
        board.wf(),
        s < dir_stack_count(*board, direction),
        j < dir_stack_len(*board, direction),
    ensures
        i == slot_cell(*board, direction, s as int, j as int),
        i < board.cells_spec(),
{
    proof {
        lemma_grid_bijection(*board, direction);
        assert(0 <= slot_cell(*board, direction, s as int, j as int) < board.cells_spec());
    }
    match direction {
        Direction::Left => s * board.columns + j,
        Direction::Right => s * board.columns + (board.columns - 1 - j),
        Direction::Up => j * board.columns + s,
        Direction::Down => (board.rows - 1 - j) * board.columns + s,
    }
}

/// The merge pass on an already-compacted stack: one scan, merging each
/// adjacent equal pair once and appending one notification per merge.
fn merge_stack(v: &mut Vec<u32>, merges: &mut Vec<Merged>) -> (changed: bool)
    requires
        forall|i: int| 0 <= i < old(v)@.len() ==> old(v)@[i] < u32::MAX,
    ensures
        final(v)@ == merge_pass(old(v)@, 0),
        powers_of(final(merges)@) == powers_of(old(merges)@) + merge_pass_events(old(v)@, 0),
        changed == (merge_pass_events(old(v)@, 0).len() > 0),
{
    let n = v.len();
    let mut changed = false;
    if n == 0 {
        proof {
            assert(powers_of(merges@) =~= powers_of(merges@) + merge_pass_events(old(v)@, 0));
        }
        return false;
    }
    let mut j: usize = 0;
    while j < n - 1
        invariant
            n == v.len(),
            n == old(v)@.len(),
            n >= 1,
            j <= n - 1,
            forall|i: int| 0 <= i < old(v)@.len() ==> old(v)@[i] < u32::MAX,
            forall|i: int| j <= i < n ==> v@[i] == old(v)@[i] || v@[i] == 0,
            merge_pass(v@, j as int) == merge_pass(old(v)@, 0),
            powers_of(merges@) + merge_pass_events(v@, j as int) == powers_of(old(merges)@)
                + merge_pass_events(old(v)@, 0),
            merges@.len() >= old(merges)@.len(),
            changed == (merges@.len() > old(merges)@.len()),
        decreases n - j,
    {
        let ghost pre = v@;
        let ghost prem = merges@;
        let a = v[j];
        let b = v[j + 1];
        if a != 0 && a == b {
            merges.push(Merged::from_power(a));
            v.set(j, a + 1);
            v.set(j + 1, 0);
            changed = true;
            proof {
                assert(v@ =~= merge_at(pre, j as int));
                assert(merge_pass(pre, j as int) == merge_pass(v@, j as int + 1));
                assert(merge_pass_events(pre, j as int) == seq![a] + merge_pass_events(
                    v@,
                    j as int + 1,
                ));
                assert(powers_of(merges@) =~= powers_of(prem).push(a));
                assert(powers_of(prem).push(a) + merge_pass_events(v@, j as int + 1)
                    =~= powers_of(prem) + merge_pass_events(pre, j as int));
            }
        } else {
            proof {
                assert(merge_pass(pre, j as int) == merge_pass(pre, j as int + 1));
                assert(merge_pass_events(pre, j as int) == merge_pass_events(pre, j as int + 1));
            }
        }
        j = j + 1;
    }
    proof {
        assert(merge_pass(v@, n as int - 1) == v@);
        assert(merge_pass_events(v@, n as int - 1) =~= Seq::<u32>::empty());
        assert(powers_of(merges@) =~= powers_of(merges@) + merge_pass_events(v@, n as int - 1));
        assert(powers_of(merges@).len() == merges@.len());
        assert(powers_of(old(merges)@).len() == old(merges)@.len());
    }
    changed
}

// ------------------------------------------------------------------
// The tracker that runs one full move over the grid.
// ------------------------------------------------------------------

/// One move in flight: the board shape, the working copy of the grid,
/// and whether anything has moved or merged since tracking started.
#[derive(Debug)]
pub struct MoveTracker {
    board: Board,
    tiles: Vec<u32>,
    changed: bool,
}

impl View for MoveTracker {
    type V = Seq<u32>;

    closed spec fn view(&self) -> Seq<u32> {
        self.tiles@
    }
}

impl MoveTracker {
    pub closed spec fn spec_board(&self) -> Board {
        self.board
    }

    pub closed spec fn spec_changed(&self) -> bool {
        self.changed
    }

    pub open spec fn wf(&self) -> bool {
        self.spec_board().wf() && self@.len() == self.spec_board().cells_spec()
    }

    pub fn new(board: Board, tiles: Vec<u32>) -> (t: MoveTracker)
        requires
            board.wf(),
            tiles@.len() == board.cells_spec(),
        ensures
            t.wf(),
            t@ == tiles@,
            t.spec_board() == board,
            !t.spec_changed(),
    {
        MoveTracker { board, tiles, changed: false }
    }

    pub fn start_tracking(&mut self)
        ensures
            final(self)@ == old(self)@,
            final(self).spec_board() == old(self).spec_board(),
            !final(self).spec_changed(),
    {
        self.changed = false;
    }

    pub fn has_changed(&self) -> (r: bool)
        ensures
            r == self.spec_changed(),
    {
        self.changed
    }

    /// Stack `s` of the grid, copied out in leading-edge order.
    fn read_stack(&self, direction: Direction, s: usize) -> (v: Vec<u32>)
        requires
            self.wf(),
            s < dir_stack_count(self.spec_board(), direction),
        ensures
            v@ == stack_of(self@, self.spec_board(), direction, s as int),
    {
        let len = exec_stack_len(&self.board, direction);
        let mut v: Vec<u32> = Vec::new();
        let mut j: usize = 0;
        while j < len
            invariant
                self.wf(),
                s < dir_stack_count(self.spec_board(), direction),
                len == dir_stack_len(self.spec_board(), direction),
                j <= len,
                v@.len() == j,
                forall|q: int|
                    0 <= q < j ==> v@[q] == self@[slot_cell(
                        self.spec_board(),
                        direction,
                        s as int,
                        q,
                    )],
            decreases len - j,
        {
            let idx = cell_at(&self.board, direction, s, j);
            let value = self.tiles[idx];
            v.push(value);
            j = j + 1;
        }
        proof {
            assert(v@ =~= stack_of(self@, self.spec_board(), direction, s as int));
        }
        v
    }

    /// Write stack `s` back into the grid. Only the cells of that stack
    /// change, and the grid's tiles trade exactly the old stack for the
    /// new one.
    fn write_stack(&mut self, direction: Direction, s: usize, v: &Vec<u32>)
        requires
            old(self).wf(),
            s < dir_stack_count(old(self).spec_board(), direction),
            v@.len() == dir_stack_len(old(self).spec_board(), direction),
        ensures
            final(self).wf(),
            final(self).spec_board() == old(self).spec_board(),
            final(self).spec_changed() == old(self).spec_changed(),
            final(self)@.len() == old(self)@.len(),
            forall|j: int|
                0 <= j < v@.len() ==> final(self)@[slot_cell(
                    old(self).spec_board(),
                    direction,
                    s as int,
                    j,
                )] == v@[j],
            forall|i: int|
                0 <= i < old(self)@.len() && cell_stack(old(self).spec_board(), direction, i)
                    != s ==> final(self)@[i] == old(self)@[i],
            tile_powers(final(self)@).add(
                tile_powers(stack_of(old(self)@, old(self).spec_board(), direction, s as int)),
            ) == tile_powers(old(self)@).add(tile_powers(v@)),
    {
        let ghost b = self.spec_board();
        let ghost g0 = self.tiles@;
        let ghost st0 = stack_of(g0, b, direction, s as int);
        let len = exec_stack_len(&self.board, direction);
        let mut j: usize = 0;
        while j < len
            invariant
                self.spec_board() == b,
                self.spec_changed() == old(self).spec_changed(),
                b.wf(),
                self@.len() == g0.len(),
                g0.len() == b.cells_spec(),
                g0 == old(self)@,
                st0 == stack_of(g0, b, direction, s as int),
                s < dir_stack_count(b, direction),
                len == dir_stack_len(b, direction),
                v@.len() == len,
                j <= len,
                forall|q: int|
                    0 <= q < j ==> self@[#[trigger] slot_cell(b, direction, s as int, q)] == v@[q],
                forall|i: int|
                    0 <= i < g0.len() && cell_stack(b, direction, i) != s ==> self@[i] == g0[i],
                forall|q: int|
                    j <= q < len ==> self@[#[trigger] slot_cell(b, direction, s as int, q)]
                        == g0[slot_cell(b, direction, s as int, q)],
                tile_powers(self@).add(tile_powers(st0.take(j as int))) == tile_powers(g0).add(
                    tile_powers(v@.take(j as int)),
                ),
            decreases len - j,
        {
            let ghost pre = self.tiles@;
            let idx = cell_at(&self.board, direction, s, j);
            let value = v[j];
            self.tiles.set(idx, value);
            proof {
                lemma_grid_bijection(b, direction);
                assert(pre[idx as int] == g0[idx as int]);
                assert(g0[idx as int] == st0[j as int]);
                lemma_tile_powers_update(pre, idx as int, value);
                assert(st0.take(j as int + 1) =~= st0.take(j as int).push(st0[j as int]));
                assert(v@.take(j as int + 1) =~= v@.take(j as int).push(v@[j as int]));
                lemma_tile_powers_push(st0.take(j as int), st0[j as int]);
                lemma_tile_powers_push(v@.take(j as int), v@[j as int]);
                assert forall|x: u32|
                    #![trigger tile_powers(self@).count(x)]
                    tile_powers(self@).add(tile_powers(st0.take(j as int + 1))).count(x)
                        == tile_powers(g0).add(tile_powers(v@.take(j as int + 1))).count(x) by {
                    assert(tile_powers(self@).add(unit_power(pre[idx as int])).count(x)
                        == tile_powers(pre).add(unit_power(value)).count(x));
                    assert(tile_powers(pre).add(tile_powers(st0.take(j as int))).count(x)
                        == tile_powers(g0).add(tile_powers(v@.take(j as int))).count(x));
                }
                assert(tile_powers(self@).add(tile_powers(st0.take(j as int + 1)))
                    =~= tile_powers(g0).add(tile_powers(v@.take(j as int + 1))));
                assert forall|q: int|
                    j + 1 <= q < len implies self@[#[trigger] slot_cell(b, direction, s as int, q)]
                    == g0[slot_cell(b, direction, s as int, q)] by {
                    assert(cell_slot(b, direction, slot_cell(b, direction, s as int, q)) == q);
                    assert(slot_cell(b, direction, s as int, q) != idx as int);
                }
                assert forall|i: int|
                    0 <= i < g0.len() && cell_stack(b, direction, i) != s implies self@[i]
                    == g0[i] by {
                    assert(cell_stack(b, direction, idx as int) == s);
                }
            }
            j = j + 1;
        }
        proof {
            assert(st0.take(len as int) =~= st0);
            assert(v@.take(len as int) =~= v@);
        }
    }

    /// One full move in direction `direction`: every stack is compacted,
    /// merged once and compacted again, and written back. Returns one
    /// notification per merge, in stack order; the change flag is raised
    /// exactly when the grid differs from what it was.
    pub fn apply(&mut self, direction: Direction) -> (merges: Vec<Merged>)
        requires
            old(self).wf(),
            forall|i: int| 0 <= i < old(self)@.len() ==> old(self)@[i] < u32::MAX,
        ensures
            final(self).wf(),
            final(self).spec_board() == old(self).spec_board(),
            final(self)@ == moved_grid(old(self)@, old(self).spec_board(), direction),
            powers_of(merges@) == move_events(old(self)@, old(self).spec_board(), direction),
            final(self).spec_changed() == (old(self).spec_changed() || final(self)@ != old(
                self,
            )@),
            tile_powers(final(self)@).add(merged_sources(powers_of(merges@))) == tile_powers(
                old(self)@,
            ).add(merged_results(powers_of(merges@))),
            forall|t: int|
                0 <= t < dir_stack_count(old(self).spec_board(), direction) ==> gapless(
                    #[trigger] stack_of(final(self)@, old(self).spec_board(), direction, t),
                ),
    {
        let ghost b = self.spec_board();
        let ghost g0 = self.tiles@;
        let count = exec_stack_count(&self.board, direction);
        let mut merges: Vec<Merged> = Vec::new();
        let mut s: usize = 0;
        while s < count
            invariant
                self.wf(),
                self.spec_board() == b,
                b.wf(),
                g0 == old(self)@,
                g0.len() == b.cells_spec(),
                self@.len() == g0.len(),
                count == dir_stack_count(b, direction),
                forall|i: int| 0 <= i < g0.len() ==> g0[i] < u32::MAX,
                s <= count,
                forall|t: int|
                    0 <= t < s ==> #[trigger] stack_of(self@, b, direction, t) == moved_stack(
                        stack_of(g0, b, direction, t),
                    ),
                forall|t: int|
                    s <= t < count ==> #[trigger] stack_of(self@, b, direction, t) == stack_of(
                        g0,
                        b,
                        direction,
                        t,
                    ),
                powers_of(merges@) == events_upto(g0, b, direction, s as int),
                tile_powers(self@).add(merged_sources(powers_of(merges@))) == tile_powers(
                    g0,
                ).add(merged_results(powers_of(merges@))),
                self.spec_changed() == (old(self).spec_changed() || exists|t: int|
                    0 <= t < s && #[trigger] stack_of(g0, b, direction, t) != moved_stack(
                        stack_of(g0, b, direction, t),
                    )),
            decreases count - s,
        {
            proof {
                lemma_grid_bijection(b, direction);
            }
            let ghost gpre = self.tiles@;
            let ghost epre = powers_of(merges@);
            let mut stack = self.read_stack(direction, s);
            let ghost st0 = stack@;
            proof {
                assert(st0 == stack_of(g0, b, direction, s as int));
                assert forall|q: int| 0 <= q < st0.len() implies st0[q] < u32::MAX by {
                    assert(st0[q] == g0[slot_cell(b, direction, s as int, q)]);
                }
            }
            let c1 = go_stack(&mut stack);
            let ghost st1 = stack@;
            proof {
                lemma_compact_bounded(st0, u32::MAX);
            }
            let c2 = merge_stack(&mut stack, &mut merges);
            let ghost st2 = stack@;
            let c3 = go_stack(&mut stack);
            let ghost ev = stack_events(st0);
            proof {
                assert(st1 == compact_seq(st0));
                assert(st2 == merge_pass(st1, 0));
                assert(stack@ == moved_stack(st0));
                assert(powers_of(merges@) == epre + ev);
                lemma_moved_stack_fixed_iff(st0);
                if !c2 {
                    lemma_merge_pass_no_events(st1, 0);
                    lemma_compact_idempotent(st0);
                }
                assert((c1 || c2 || c3) == (moved_stack(st0) != st0));
                lemma_moved_stack_len(st0);
            }
            self.write_stack(direction, s, &stack);
            if c1 || c2 || c3 {
                self.changed = true;
            }
            proof {
                assert forall|t: int| 0 <= t < count && t != s implies stack_of(
                    self@,
                    b,
                    direction,
                    t,
                ) == stack_of(gpre, b, direction, t) by {
                    assert forall|q: int| 0 <= q < dir_stack_len(b, direction) implies stack_of(
                        self@,
                        b,
                        direction,
                        t,
                    )[q] == stack_of(gpre, b, direction, t)[q] by {
                        let cellq = slot_cell(b, direction, t, q);
                        assert(cell_stack(b, direction, cellq) == t);
                    }
                    assert(stack_of(self@, b, direction, t) =~= stack_of(gpre, b, direction, t));
                }
                assert(stack_of(self@, b, direction, s as int) =~= stack@);
                assert(events_upto(g0, b, direction, s as int + 1) == events_upto(
                    g0,
                    b,
                    direction,
                    s as int,
                ) + ev);
                lemma_moved_stack_conserves(st0);
                lemma_merged_sources_add(epre, ev);
                lemma_merged_results_add(epre, ev);
                assert forall|x: u32|
                    #![trigger tile_powers(self@).count(x)]
                    tile_powers(self@).add(merged_sources(powers_of(merges@))).count(x)
                        == tile_powers(g0).add(merged_results(powers_of(merges@))).count(x) by {
                    assert(tile_powers(self@).add(tile_powers(st0)).count(x) == tile_powers(
                        gpre,
                    ).add(tile_powers(stack@)).count(x));
                    assert(tile_powers(stack@).add(merged_sources(ev)).count(x) == tile_powers(
                        st0,
                    ).add(merged_results(ev)).count(x));
                    assert(tile_powers(gpre).add(merged_sources(epre)).count(x) == tile_powers(
                        g0,
                    ).add(merged_results(epre)).count(x));
                    assert(merged_sources(powers_of(merges@)).count(x) == merged_sources(
                        epre,
                    ).count(x) + merged_sources(ev).count(x));
                    assert(merged_results(powers_of(merges@)).count(x) == merged_results(
                        epre,
                    ).count(x) + merged_results(ev).count(x));
                }
                assert(tile_powers(self@).add(merged_sources(powers_of(merges@)))
                    =~= tile_powers(g0).add(merged_results(powers_of(merges@))));
                assert forall|t: int| 0 <= t < s + 1 implies #[trigger] stack_of(
                    self@,
                    b,
                    direction,
                    t,
                ) == moved_stack(stack_of(g0, b, direction, t)) by {
                    if t == s {
                        assert(stack_of(self@, b, direction, t) == stack@);
                    } else {
                        assert(stack_of(self@, b, direction, t) == stack_of(gpre, b, direction, t));
                        assert(stack_of(gpre, b, direction, t) == moved_stack(
                            stack_of(g0, b, direction, t),
                        ));
                    }
                }
                assert forall|t: int| s + 1 <= t < count implies #[trigger] stack_of(
                    self@,
                    b,
                    direction,
                    t,
                ) == stack_of(g0, b, direction, t) by {
                    assert(stack_of(self@, b, direction, t) == stack_of(gpre, b, direction, t));
                    assert(stack_of(gpre, b, direction, t) == stack_of(g0, b, direction, t));
                }
                if c1 || c2 || c3 {
                    assert(stack_of(g0, b, direction, s as int) != moved_stack(
                        stack_of(g0, b, direction, s as int),
                    ));
                } else {
                    if exists|t: int|
                        0 <= t < s + 1 && #[trigger] stack_of(g0, b, direction, t) != moved_stack(
                            stack_of(g0, b, direction, t),
                        ) {
                        let t = choose|t: int|
                            0 <= t < s + 1 && #[trigger] stack_of(g0, b, direction, t)
                                != moved_stack(stack_of(g0, b, direction, t));
                        assert(t != s);
                        assert(0 <= t < s && stack_of(g0, b, direction, t) != moved_stack(
                            stack_of(g0, b, direction, t),
                        ));
                    }
                }
            }
            s = s + 1;
        }
        proof {
            lemma_grid_bijection(b, direction);
            assert forall|i: int| 0 <= i < g0.len() implies self@[i] == moved_grid(
                g0,
                b,
                direction,
            )[i] by {
                let t = cell_stack(b, direction, i);
                let q = cell_slot(b, direction, i);
                assert(stack_of(self@, b, direction, t) == moved_stack(
                    stack_of(g0, b, direction, t),
                ));
                assert(stack_of(self@, b, direction, t)[q] == self@[slot_cell(b, direction, t, q)]);
            }
            assert(self@ =~= moved_grid(g0, b, direction));
            if exists|t: int|
                0 <= t < count && #[trigger] stack_of(g0, b, direction, t) != moved_stack(
                    stack_of(g0, b, direction, t),
                ) {
                let t = choose|t: int|
                    0 <= t < count && #[trigger] stack_of(g0, b, direction, t) != moved_stack(
                        stack_of(g0, b, direction, t),
                    );
                let st = stack_of(g0, b, direction, t);
                lemma_moved_stack_len(st);
                lemma_seq_neq_index(moved_stack(st), st);
                let q = choose|q: int| 0 <= q < moved_stack(st).len() && moved_stack(st)[q] != st[q];
                assert(stack_of(self@, b, direction, t)[q] == self@[slot_cell(b, direction, t, q)]);
                assert(st[q] == g0[slot_cell(b, direction, t, q)]);
                assert(self@ != g0);
            } else {
                assert forall|i: int| 0 <= i < g0.len() implies self@[i] == g0[i] by {
                    let t = cell_stack(b, direction, i);
                    let q = cell_slot(b, direction, i);
                    assert(stack_of(g0, b, direction, t) == moved_stack(
                        stack_of(g0, b, direction, t),
                    ));
                    assert(stack_of(self@, b, direction, t)[q] == self@[slot_cell(
                        b,
                        direction,
                        t,
                        q,
                    )]);
                    assert(stack_of(g0, b, direction, t)[q] == g0[slot_cell(b, direction, t, q)]);
                }
                assert(self@ =~= g0);
            }
            assert forall|t: int| 0 <= t < count implies gapless(
                #[trigger] stack_of(self@, b, direction, t),
            ) by {
                lemma_compact_gapless(
                    merge_pass(compact_seq(stack_of(g0, b, direction, t)), 0),
                );
            }
        }
        merges
    }

    /// Hand the grid back once the move is done.
    pub fn into_tiles(self) -> (t: Vec<u32>)
        ensures
            t@ == self@,
    {
        self.tiles
    }

    /// The tiles now on the board, in cell order, each with its position
    /// and value.
    pub fn tiles(&self) -> (out: Vec<(Position, TileKind)>)
        ensures
            pairs_of(out@) == occupied_cells(self@),
    {
        let mut out: Vec<(Position, TileKind)> = Vec::new();
        let n = self.tiles.len();
        let mut i: usize = 0;
        while i < n
            invariant
                n == self@.len(),
                i <= n,
                pairs_of(out@) == occupied_cells(self@.take(i as int)),
            decreases n - i,
        {
            let ghost outpre = out@;
            let k = self.tiles[i];
            proof {
                assert(self@.take(i as int + 1).drop_last() =~= self@.take(i as int));
                assert(self@.take(i as int + 1).last() == self@[i as int]);
            }
            if k != 0 {
                out.push((Position(i), TileKind(k)));
                proof {
                    assert(pairs_of(out@) =~= pairs_of(outpre).push((i, k)));
                }
            }
            i = i + 1;
        }
        proof {
            assert(self@.take(n as int) =~= self@);
        }
        out
    }
}

/// The occupied cells of a grid, each with its power, in cell order.
pub open spec fn occupied_cells(g: Seq<u32>) -> Seq<(usize, u32)>
    decreases g.len(),
{
    if g.len() == 0 {
        Seq::empty()
    } else if g.last() == 0 {
        occupied_cells(g.drop_last())
    } else {
        occupied_cells(g.drop_last()).push((((g.len() - 1) as usize), g.last()))
    }
}

/// Positions and values of a batch of placed tiles, as plain pairs.
pub open spec fn pairs_of(ts: Seq<(Position, TileKind)>) -> Seq<(usize, u32)> {
    ts.map_values(|p: (Position, TileKind)| (p.0@, p.1@))
}

} // verus!
