//! Laws of the engine, stated over the model and proved once and for
//! all: conservation of the tile powers under any move, at most one
//! merge per tile, no gaps left behind, powers never shrinking, and the
//! one-shot win signal.
//!
//! `MoveTracker::apply` carries the same guarantees in its contract for
//! every move it executes, including that its change flag is raised
//! exactly when the grid differs from what it was.

use crate::model::{
    compact_seq, gapless, lemma_compact_gapless, lemma_gapless_compact_id,
    lemma_merged_results_elements, lemma_moved_stack_conserves, lemma_moved_stack_len, merge_at,
    merge_pass, merge_pass_events, merged_results, merged_sources, moved_stack, nonzeros,
    stack_events, tile_powers,
};
use crate::moving::{
    cell_slot, cell_stack, dir_stack_count, dir_stack_len, hybrid_grid, lemma_grid_bijection,
    lemma_hybrid_conserves, move_events, moved_grid, slot_cell, stack_of,
};
use crate::moving::Direction;
use crate::tiling::Board;
use crate::{win_signal, Congratulation};
use vstd::prelude::*;

verus! {

/// Each tile merges at most once per move: a stack of four equal tiles
/// resolves to exactly two tiles of the next power — never to one tile
/// two powers up — and reports exactly two merges.
pub proof fn lemma_four_equal_tiles(p: u32)
    requires
        0 < p,
        p < u32::MAX,
    ensures
        moved_stack(seq![p, p, p, p]) == seq![(p + 1) as u32, (p + 1) as u32, 0u32, 0u32],
        stack_events(seq![p, p, p, p]) == seq![p, p],
{
    let s0 = seq![p, p, p, p];
    let q = (p + 1) as u32;
    let s1 = seq![q, 0u32, p, p];
    let s2 = seq![q, 0u32, q, 0u32];
    // the stack is already gapless, so the first compaction is a no-op
    assert(gapless(s0));
    lemma_gapless_compact_id(s0);
    // the merge scan: slots 0 and 1 merge, slot 1 is then empty, slots 2
    // and 3 merge; the scan never revisits the merged slot 0
    assert(merge_at(s0, 0) =~= s1);
    assert(merge_pass(s0, 0) == merge_pass(s1, 1));
    assert(merge_pass(s1, 1) == merge_pass(s1, 2));
    assert(merge_at(s1, 2) =~= s2);
    assert(merge_pass(s1, 2) == merge_pass(s2, 3));
    assert(merge_pass(s2, 3) == s2);
    assert(merge_pass_events(s2, 3) =~= Seq::<u32>::empty());
    assert(merge_pass_events(s1, 2) == seq![s1[2]] + merge_pass_events(s2, 3));
    assert(merge_pass_events(s1, 1) == merge_pass_events(s1, 2));
    assert(merge_pass_events(s0, 0) == seq![s0[0]] + merge_pass_events(s1, 1));
    assert(stack_events(s0) =~= seq![p, p]);
    // the second compaction packs the two merged tiles to the edge
    assert(s2.drop_last() =~= seq![q, 0u32, q]);
    assert(seq![q, 0u32, q].drop_last() =~= seq![q, 0u32]);
    assert(seq![q, 0u32].drop_last() =~= seq![q]);
    assert(seq![q].drop_last() =~= Seq::<u32>::empty());
    assert(nonzeros(Seq::<u32>::empty()) =~= Seq::<u32>::empty());
    assert(nonzeros(seq![q]) =~= seq![q]);
    assert(nonzeros(seq![q, 0u32]) == nonzeros(seq![q]));
    assert(nonzeros(seq![q, 0u32, q]) =~= seq![q, q]);
    assert(nonzeros(s2) == nonzeros(seq![q, 0u32, q]));
    assert(compact_seq(s2) =~= seq![q, q, 0u32, 0u32]);
    assert(moved_stack(s0) == compact_seq(s2));
}

/// Conservation over a whole move, for any grid and any direction: the
/// multiset of tile powers afterwards, together with the two source
/// tiles of every reported merge, equals the multiset before, together
/// with the one result tile of every merge. Nothing else appears or
/// disappears.
pub proof fn lemma_move_conserves_powers(g: Seq<u32>, b: Board, d: Direction)
    requires
        b.wf(),
        g.len() == b.cells_spec(),
        forall|i: int| 0 <= i < g.len() ==> g[i] < u32::MAX,
    ensures
        tile_powers(moved_grid(g, b, d)).add(merged_sources(move_events(g, b, d))) == tile_powers(
            g,
        ).add(merged_results(move_events(g, b, d))),
{
    lemma_grid_bijection(b, d);
    lemma_hybrid_conserves(g, b, d, dir_stack_count(b, d));
    assert(hybrid_grid(g, b, d, dir_stack_count(b, d)) =~= moved_grid(g, b, d));
}

/// Compaction correctness over a whole move: afterwards no stack holds
/// a tile behind an empty cell, whatever the grid and the direction.
pub proof fn lemma_move_leaves_no_gaps(g: Seq<u32>, b: Board, d: Direction, s: int)
    requires
        b.wf(),
        g.len() == b.cells_spec(),
        0 <= s < dir_stack_count(b, d),
    ensures
        gapless(stack_of(moved_grid(g, b, d), b, d, s)),
{
    lemma_grid_bijection(b, d);
    let st = stack_of(g, b, d, s);
    lemma_moved_stack_len(st);
    assert forall|j: int| 0 <= j < dir_stack_len(b, d) implies stack_of(
        moved_grid(g, b, d),
        b,
        d,
        s,
    )[j] == moved_stack(st)[j] by {
        let i = slot_cell(b, d, s, j);
        assert(moved_grid(g, b, d)[i] == moved_stack(stack_of(g, b, d, cell_stack(b, d, i)))[
            cell_slot(b, d, i)]);
    }
    assert(stack_of(moved_grid(g, b, d), b, d, s) =~= moved_stack(st));
    lemma_compact_gapless(merge_pass(compact_seq(st), 0));
}

/// No tile's power ever decreases: a power that a move made more
/// frequent on a stack is the result of a merge, one above the power of
/// the two tiles that fed it.
pub proof fn lemma_powers_only_grow(s: Seq<u32>, x: u32)
    requires
        forall|k: int| 0 <= k < s.len() ==> s[k] < u32::MAX,
        tile_powers(moved_stack(s)).count(x) > tile_powers(s).count(x),
    ensures
        exists|q: int|
            0 <= q < stack_events(s).len() && ((#[trigger] stack_events(s)[q]) + 1) as u32 == x,
{
    lemma_moved_stack_conserves(s);
    let ev = stack_events(s);
    assert(tile_powers(moved_stack(s)).add(merged_sources(ev)).count(x) == tile_powers(s).add(
        merged_results(ev),
    ).count(x));
    lemma_merged_results_elements(ev, x);
}

/// The win signal is one-shot: once the flag has left `NotYet` — as it
/// does when the application acknowledges the first signal — no later
/// batch of merge events can raise it again.
pub proof fn lemma_win_signal_one_shot(later: Congratulation, ev: Seq<u32>)
    requires
        later != Congratulation::NotYet,
    ensures
        !win_signal(later, ev),
{
}

} // verus!
