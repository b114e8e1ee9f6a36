//! Mathematical model of a single stack (one row or column, viewed in
//! leading-edge order): compaction, the single-pass adjacent merge, and
//! the multiset of tile powers that the two phases rearrange.

use vstd::multiset::Multiset;
use vstd::prelude::*;

verus! {

broadcast use vstd::multiset::group_multiset_axioms;

/// The nonzero values of `s`, in order.
pub open spec fn nonzeros(s: Seq<u32>) -> Seq<u32>
    decreases s.len(),
{
    if s.len() == 0 {
        Seq::empty()
    } else if s.last() == 0 {
        nonzeros(s.drop_last())
    } else {
        nonzeros(s.drop_last()).push(s.last())
    }
}

/// `n` empty cells.
pub open spec fn zero_row(n: nat) -> Seq<u32> {
    Seq::new(n, |i: int| 0u32)
}

/// The compacted form of a stack: its tiles slid to the leading edge,
/// the freed cells empty.
pub open spec fn compact_seq(s: Seq<u32>) -> Seq<u32> {
    nonzeros(s) + zero_row((s.len() - nonzeros(s).len()) as nat)
}

/// No tile sits behind an empty cell.
pub open spec fn gapless(s: Seq<u32>) -> bool {
    forall|i: int, j: int|
        #![trigger s[i], s[j]]
        0 <= i < j < s.len() && s[i] == 0 ==> s[j] == 0
}

/// The multiset of powers of the tiles in `s` (empty cells contribute nothing).
pub open spec fn tile_powers(s: Seq<u32>) -> Multiset<u32>
    decreases s.len(),
{
    if s.len() == 0 {
        Multiset::empty()
    } else {
        tile_powers(s.drop_last()).add(unit_power(s.last()))
    }
}

/// The multiset holding the single tile `x`, or nothing for an empty cell.
pub open spec fn unit_power(x: u32) -> Multiset<u32> {
    if x == 0 {
        Multiset::empty()
    } else {
        Multiset::singleton(x)
    }
}

/// One step of the merge scan at slot `j`: the pair becomes one tile of
/// the next power and an empty cell.
pub open spec fn merge_at(s: Seq<u32>, j: int) -> Seq<u32> {
    s.update(j, (s[j] + 1) as u32).update(j + 1, 0u32)
}

/// The single left-to-right merge scan, from slot `j` on. A merged slot is
/// never revisited, so a run of four equal tiles yields exactly two merges.
pub open spec fn merge_pass(s: Seq<u32>, j: int) -> Seq<u32>
    decreases s.len() - j,
{
    if j < 0 || j + 1 >= s.len() {
        s
    } else if s[j] != 0 && s[j] == s[j + 1] {
        merge_pass(merge_at(s, j), j + 1)
    } else {
        merge_pass(s, j + 1)
    }
}

/// The pre-merge powers reported by the merge scan, in scan order.
pub open spec fn merge_pass_events(s: Seq<u32>, j: int) -> Seq<u32>
    decreases s.len() - j,
{
    if j < 0 || j + 1 >= s.len() {
        Seq::empty()
    } else if s[j] != 0 && s[j] == s[j + 1] {
        seq![s[j]] + merge_pass_events(merge_at(s, j), j + 1)
    } else {
        merge_pass_events(s, j + 1)
    }
}

/// The tiles a batch of merge events consumed: each event takes two tiles
/// of its power.
pub open spec fn merged_sources(ev: Seq<u32>) -> Multiset<u32>
    decreases ev.len(),
{
    if ev.len() == 0 {
        Multiset::empty()
    } else {
        merged_sources(ev.drop_first()).insert(ev.first()).insert(ev.first())
    }
}

/// The tiles a batch of merge events produced: each event yields one tile
/// of the next power.
pub open spec fn merged_results(ev: Seq<u32>) -> Multiset<u32>
    decreases ev.len(),
{
    if ev.len() == 0 {
        Multiset::empty()
    } else {
        merged_results(ev.drop_first()).insert((ev.first() + 1) as u32)
    }
}

/// A full directional move of one stack: compact, merge once, compact again.
pub open spec fn moved_stack(s: Seq<u32>) -> Seq<u32> {
    compact_seq(merge_pass(compact_seq(s), 0))
}

/// The merge events a full move of one stack reports.
pub open spec fn stack_events(s: Seq<u32>) -> Seq<u32> {
    merge_pass_events(compact_seq(s), 0)
}

// ------------------------------------------------------------------
// Facts about `nonzeros` and `compact_seq`.
// ------------------------------------------------------------------

pub proof fn lemma_nonzeros_len(s: Seq<u32>)
    ensures
        nonzeros(s).len() <= s.len(),
    decreases s.len(),
{
    if s.len() > 0 {
        lemma_nonzeros_len(s.drop_last());
    }
}

pub proof fn lemma_nonzeros_all_nonzero(s: Seq<u32>)
    ensures
        forall|k: int| 0 <= k < nonzeros(s).len() ==> nonzeros(s)[k] != 0,
    decreases s.len(),
{
    if s.len() > 0 {
        lemma_nonzeros_all_nonzero(s.drop_last());
        assert forall|k: int| 0 <= k < nonzeros(s).len() implies nonzeros(s)[k] != 0 by {
            if s.last() != 0 && k == nonzeros(s).len() - 1 {
                assert(nonzeros(s)[k] == s.last());
            } else {
                assert(nonzeros(s)[k] == nonzeros(s.drop_last())[k]);
            }
        }
    }
}

pub proof fn lemma_nonzeros_of_all_nonzero(s: Seq<u32>)
    requires
        forall|k: int| 0 <= k < s.len() ==> s[k] != 0,
    ensures
        nonzeros(s) == s,
    decreases s.len(),
{
    if s.len() > 0 {
        lemma_nonzeros_of_all_nonzero(s.drop_last());
        assert(nonzeros(s) =~= s);
    } else {
        assert(nonzeros(s) =~= s);
    }
}

pub proof fn lemma_nonzeros_add(a: Seq<u32>, b: Seq<u32>)
    ensures
        nonzeros(a + b) == nonzeros(a) + nonzeros(b),
    decreases b.len(),
{
    if b.len() == 0 {
        assert(a + b =~= a);
        assert(nonzeros(a) + nonzeros(b) =~= nonzeros(a));
    } else {
        assert((a + b).drop_last() =~= a + b.drop_last());
        assert((a + b).last() == b.last());
        lemma_nonzeros_add(a, b.drop_last());
        if b.last() == 0 {
            assert(nonzeros(b) == nonzeros(b.drop_last()));
        } else {
            assert(nonzeros(a) + nonzeros(b.drop_last()).push(b.last())
                =~= (nonzeros(a) + nonzeros(b.drop_last())).push(b.last()));
        }
    }
}

pub proof fn lemma_nonzeros_zero_row(n: nat)
    ensures
        nonzeros(zero_row(n)) == Seq::<u32>::empty(),
    decreases n,
{
    if n > 0 {
        assert(zero_row(n).drop_last() =~= zero_row((n - 1) as nat));
        assert(zero_row(n).last() == 0);
        lemma_nonzeros_zero_row((n - 1) as nat);
    }
}

pub proof fn lemma_nonzeros_idempotent(s: Seq<u32>)
    ensures
        nonzeros(nonzeros(s)) == nonzeros(s),
{
    lemma_nonzeros_all_nonzero(s);
    lemma_nonzeros_of_all_nonzero(nonzeros(s));
}

pub proof fn lemma_compact_len(s: Seq<u32>)
    ensures
        compact_seq(s).len() == s.len(),
{
    lemma_nonzeros_len(s);
}

pub proof fn lemma_nonzeros_compact(s: Seq<u32>)
    ensures
        nonzeros(compact_seq(s)) == nonzeros(s),
{
    lemma_nonzeros_len(s);
    lemma_nonzeros_add(nonzeros(s), zero_row((s.len() - nonzeros(s).len()) as nat));
    lemma_nonzeros_zero_row((s.len() - nonzeros(s).len()) as nat);
    lemma_nonzeros_idempotent(s);
    assert(nonzeros(nonzeros(s)) + Seq::<u32>::empty() =~= nonzeros(s));
}

pub proof fn lemma_compact_idempotent(s: Seq<u32>)
    ensures
        compact_seq(compact_seq(s)) == compact_seq(s),
{
    lemma_nonzeros_compact(s);
    lemma_compact_len(s);
    assert(compact_seq(compact_seq(s)) =~= compact_seq(s));
}

/// The compacted stack has no tile behind an empty cell.
pub proof fn lemma_compact_gapless(s: Seq<u32>)
    ensures
        gapless(compact_seq(s)),
{
    lemma_nonzeros_all_nonzero(s);
    lemma_nonzeros_len(s);
    assert forall|i: int, j: int|
        0 <= i < j < compact_seq(s).len() && #[trigger] compact_seq(s)[i] == 0
        implies #[trigger] compact_seq(s)[j] == 0 by {
        if i < nonzeros(s).len() {
            assert(compact_seq(s)[i] == nonzeros(s)[i]);
        }
        assert(j >= nonzeros(s).len());
    }
}

/// Compaction is the identity exactly on gapless stacks.
pub proof fn lemma_gapless_compact_id(s: Seq<u32>)
    requires
        gapless(s),
    ensures
        compact_seq(s) == s,
    decreases s.len(),
{
    if s.len() == 0 {
        assert(compact_seq(s) =~= s);
    } else {
        assert(gapless(s.drop_last())) by {
            assert(forall|i: int| 0 <= i < s.len() - 1 ==> s.drop_last()[i] == s[i]);
        }
        lemma_gapless_compact_id(s.drop_last());
        lemma_nonzeros_len(s.drop_last());
        if s.last() == 0 {
            lemma_nonzeros_len(s);
            assert(nonzeros(s) == nonzeros(s.drop_last()));
            assert forall|i: int| 0 <= i < s.len() implies compact_seq(s)[i] == s[i] by {
                if i < s.len() - 1 {
                    assert(compact_seq(s.drop_last())[i] == s.drop_last()[i]);
                    assert(s.drop_last()[i] == s[i]);
                }
            }
            assert(compact_seq(s) =~= s);
        } else {
            assert(forall|k: int| 0 <= k < s.len() ==> s[k] != 0) by {
                assert forall|k: int| 0 <= k < s.len() implies s[k] != 0 by {
                    if k < s.len() - 1 && s[k] == 0 {
                        assert(s[s.len() - 1] == 0);
                    }
                }
            }
            lemma_nonzeros_of_all_nonzero(s);
            assert(compact_seq(s) =~= s);
        }
    }
}

/// A stack is left unchanged by compaction if and only if it is gapless.
pub proof fn lemma_compact_fixed_iff_gapless(s: Seq<u32>)
    ensures
        compact_seq(s) == s <==> gapless(s),
{
    if gapless(s) {
        lemma_gapless_compact_id(s);
    }
    if compact_seq(s) == s {
        lemma_compact_gapless(s);
    }
}

/// All of `s` is nonzero exactly when `nonzeros` drops nothing.
pub proof fn lemma_nonzeros_full_iff(s: Seq<u32>)
    ensures
        nonzeros(s).len() == s.len() <==> (forall|k: int| 0 <= k < s.len() ==> s[k] != 0),
    decreases s.len(),
{
    lemma_nonzeros_len(s);
    if s.len() > 0 {
        lemma_nonzeros_full_iff(s.drop_last());
        lemma_nonzeros_len(s.drop_last());
        if nonzeros(s).len() == s.len() {
            assert forall|k: int| 0 <= k < s.len() implies s[k] != 0 by {
                if k < s.len() - 1 {
                    assert(s.drop_last()[k] == s[k]);
                }
            }
        }
    }
}

/// Values of the compacted stack all occur in the original stack or are zero.
pub proof fn lemma_nonzeros_elements(s: Seq<u32>)
    ensures
        forall|k: int| 0 <= k < nonzeros(s).len() ==> s.contains(#[trigger] nonzeros(s)[k]),
    decreases s.len(),
{
    if s.len() > 0 {
        lemma_nonzeros_elements(s.drop_last());
        assert forall|k: int| 0 <= k < nonzeros(s).len() implies s.contains(
            #[trigger] nonzeros(s)[k],
        ) by {
            if s.last() != 0 && k == nonzeros(s).len() - 1 {
                assert(s[s.len() - 1] == nonzeros(s)[k]);
            } else {
                assert(nonzeros(s)[k] == nonzeros(s.drop_last())[k]);
                assert(s.drop_last().contains(nonzeros(s)[k]));
                let w = choose|w: int|
                    0 <= w < s.drop_last().len() && s.drop_last()[w] == nonzeros(s)[k];
                assert(s[w] == nonzeros(s)[k]);
            }
        }
    }
}

/// Two distinct stacks of equal length differ at some slot.
pub proof fn lemma_seq_neq_index(a: Seq<u32>, b: Seq<u32>)
    requires
        a.len() == b.len(),
        a != b,
    ensures
        exists|q: int| 0 <= q < a.len() && a[q] != b[q],
{
    if forall|q: int| 0 <= q < a.len() ==> a[q] == b[q] {
        assert(a =~= b);
    }
}

// ------------------------------------------------------------------
// Facts about `tile_powers`.
// ------------------------------------------------------------------

pub proof fn lemma_tile_powers_push(s: Seq<u32>, x: u32)
    ensures
        tile_powers(s.push(x)) == tile_powers(s).add(unit_power(x)),
{
    assert(s.push(x).drop_last() =~= s);
    assert(s.push(x).last() == x);
}

pub proof fn lemma_tile_powers_add(a: Seq<u32>, b: Seq<u32>)
    ensures
        tile_powers(a + b) == tile_powers(a).add(tile_powers(b)),
    decreases b.len(),
{
    if b.len() == 0 {
        assert(a + b =~= a);
        assert(tile_powers(a).add(tile_powers(b)) =~= tile_powers(a));
    } else {
        assert((a + b).drop_last() =~= a + b.drop_last());
        assert((a + b).last() == b.last());
        lemma_tile_powers_add(a, b.drop_last());
        assert(tile_powers(a).add(tile_powers(b.drop_last())).add(unit_power(b.last()))
            =~= tile_powers(a).add(tile_powers(b)));
    }
}

/// Overwriting one cell exchanges its old tile for the new one, and
/// nothing else, in the multiset of powers.
pub proof fn lemma_tile_powers_update(s: Seq<u32>, i: int, v: u32)
    requires
        0 <= i < s.len(),
    ensures
        tile_powers(s.update(i, v)).add(unit_power(s[i])) == tile_powers(s).add(unit_power(v)),
    decreases s.len(),
{
    let t = s.update(i, v);
    assert(tile_powers(s) == tile_powers(s.drop_last()).add(unit_power(s.last())));
    if i == s.len() - 1 {
        assert(t.drop_last() =~= s.drop_last());
        assert(t.last() == v);
        assert(tile_powers(t) == tile_powers(s.drop_last()).add(unit_power(v)));
        assert(s[i] == s.last());
        assert(tile_powers(t).add(unit_power(s[i])) =~= tile_powers(s).add(unit_power(v)));
    } else {
        assert(t.drop_last() =~= s.drop_last().update(i, v));
        assert(t.last() == s.last());
        assert(s.drop_last()[i] == s[i]);
        lemma_tile_powers_update(s.drop_last(), i, v);
        assert(tile_powers(t) == tile_powers(s.drop_last().update(i, v)).add(
            unit_power(s.last()),
        ));
        assert(tile_powers(t).add(unit_power(s[i])) =~= tile_powers(s).add(unit_power(v)));
    }
}

pub proof fn lemma_tile_powers_zero_row(n: nat)
    ensures
        tile_powers(zero_row(n)) == Multiset::<u32>::empty(),
    decreases n,
{
    if n > 0 {
        assert(zero_row(n).drop_last() =~= zero_row((n - 1) as nat));
        assert(zero_row(n).last() == 0);
        lemma_tile_powers_zero_row((n - 1) as nat);
        assert(tile_powers(zero_row((n - 1) as nat)).add(unit_power(0u32))
            =~= Multiset::<u32>::empty());
    }
}

pub proof fn lemma_tile_powers_nonzeros(s: Seq<u32>)
    ensures
        tile_powers(nonzeros(s)) == tile_powers(s),
    decreases s.len(),
{
    if s.len() > 0 {
        lemma_tile_powers_nonzeros(s.drop_last());
        if s.last() == 0 {
            assert(tile_powers(s.drop_last()).add(unit_power(s.last()))
                =~= tile_powers(s.drop_last()));
        } else {
            lemma_tile_powers_push(nonzeros(s.drop_last()), s.last());
        }
    }
}

/// Compaction only rearranges the tiles.
pub proof fn lemma_tile_powers_compact(s: Seq<u32>)
    ensures
        tile_powers(compact_seq(s)) == tile_powers(s),
{
    lemma_nonzeros_len(s);
    lemma_tile_powers_add(nonzeros(s), zero_row((s.len() - nonzeros(s).len()) as nat));
    lemma_tile_powers_zero_row((s.len() - nonzeros(s).len()) as nat);
    lemma_tile_powers_nonzeros(s);
    assert(tile_powers(nonzeros(s)).add(Multiset::<u32>::empty()) =~= tile_powers(s));
}

// ------------------------------------------------------------------
// Facts about merge events.
// ------------------------------------------------------------------

pub proof fn lemma_merged_sources_add(a: Seq<u32>, b: Seq<u32>)
    ensures
        merged_sources(a + b) == merged_sources(a).add(merged_sources(b)),
    decreases a.len(),
{
    if a.len() == 0 {
        assert(a + b =~= b);
        assert(merged_sources(a).add(merged_sources(b)) =~= merged_sources(b));
    } else {
        assert((a + b).drop_first() =~= a.drop_first() + b);
        assert((a + b).first() == a.first());
        lemma_merged_sources_add(a.drop_first(), b);
        assert(merged_sources(a.drop_first()).add(merged_sources(b)).insert(a.first()).insert(
            a.first(),
        ) =~= merged_sources(a).add(merged_sources(b)));
    }
}

pub proof fn lemma_merged_results_add(a: Seq<u32>, b: Seq<u32>)
    ensures
        merged_results(a + b) == merged_results(a).add(merged_results(b)),
    decreases a.len(),
{
    if a.len() == 0 {
        assert(a + b =~= b);
        assert(merged_results(a).add(merged_results(b)) =~= merged_results(b));
    } else {
        assert((a + b).drop_first() =~= a.drop_first() + b);
        assert((a + b).first() == a.first());
        lemma_merged_results_add(a.drop_first(), b);
        assert(merged_results(a.drop_first()).add(merged_results(b)).insert(
            ((a.first() + 1) as u32),
        ) =~= merged_results(a).add(merged_results(b)));
    }
}

/// A power in the merge results is one above the power of some event.
pub proof fn lemma_merged_results_elements(ev: Seq<u32>, x: u32)
    requires
        merged_results(ev).count(x) > 0,
    ensures
        exists|q: int| 0 <= q < ev.len() && ((#[trigger] ev[q]) + 1) as u32 == x,
    decreases ev.len(),
{
    if ev.len() > 0 {
        if ((ev.first() + 1) as u32) == x {
            assert(((ev[0]) + 1) as u32 == x);
        } else {
            assert(merged_results(ev.drop_first()).count(x) > 0);
            lemma_merged_results_elements(ev.drop_first(), x);
            let q = choose|q: int|
                0 <= q < ev.drop_first().len() && ((#[trigger] ev.drop_first()[q]) + 1) as u32
                    == x;
            assert(((ev[q + 1]) + 1) as u32 == x);
        }
    }
}

pub proof fn lemma_merged_sources_len(ev: Seq<u32>)
    ensures
        merged_sources(ev).len() == 2 * ev.len(),
    decreases ev.len(),
{
    if ev.len() > 0 {
        lemma_merged_sources_len(ev.drop_first());
    }
}

pub proof fn lemma_merged_results_len(ev: Seq<u32>)
    ensures
        merged_results(ev).len() == ev.len(),
    decreases ev.len(),
{
    if ev.len() > 0 {
        lemma_merged_results_len(ev.drop_first());
    }
}

// ------------------------------------------------------------------
// Facts about the merge pass.
// ------------------------------------------------------------------

pub proof fn lemma_merge_pass_len(s: Seq<u32>, j: int)
    ensures
        merge_pass(s, j).len() == s.len(),
    decreases s.len() - j,
{
    if !(j < 0 || j + 1 >= s.len()) {
        if s[j] != 0 && s[j] == s[j + 1] {
            lemma_merge_pass_len(merge_at(s, j), j + 1);
        } else {
            lemma_merge_pass_len(s, j + 1);
        }
    }
}

/// The merge pass trades, for each event of power `p`, two tiles of power
/// `p` for one tile of power `p + 1`; every other tile is untouched.
pub proof fn lemma_merge_pass_conserves(s: Seq<u32>, j: int)
    requires
        forall|k: int| j <= k < s.len() ==> s[k] < u32::MAX,
    ensures
        tile_powers(merge_pass(s, j)).add(merged_sources(merge_pass_events(s, j)))
            == tile_powers(s).add(merged_results(merge_pass_events(s, j))),
    decreases s.len() - j,
{
    if j < 0 || j + 1 >= s.len() {
        assert(tile_powers(s).add(Multiset::<u32>::empty()) =~= tile_powers(s));
    } else if s[j] != 0 && s[j] == s[j + 1] {
        let p = s[j];
        let s1 = s.update(j, (p + 1) as u32);
        let s2 = merge_at(s, j);
        let ev = merge_pass_events(s, j);
        let ev1 = merge_pass_events(s2, j + 1);
        assert(s2 == s1.update(j + 1, 0u32));
        lemma_tile_powers_update(s, j, (p + 1) as u32);
        assert(s1[j + 1] == p);
        lemma_tile_powers_update(s1, j + 1, 0u32);
        assert(forall|k: int| j + 1 <= k < s2.len() ==> s2[k] < u32::MAX);
        lemma_merge_pass_conserves(s2, j + 1);
        assert(ev.drop_first() =~= ev1);
        assert(ev.first() == p);
        assert(merged_sources(ev) == merged_sources(ev1).insert(p).insert(p));
        assert(merged_results(ev) == merged_results(ev1).insert((p + 1) as u32));
        // tp(s2) + {p} == tp(s1), and tp(s1) + {p} == tp(s) + {p + 1}
        assert(unit_power(p) == Multiset::singleton(p));
        assert(unit_power((p + 1) as u32) == Multiset::singleton((p + 1) as u32));
        assert(unit_power(0u32) == Multiset::<u32>::empty());
        assert(tile_powers(s2).insert(p) =~= tile_powers(s1));
        assert(tile_powers(s2).insert(p).insert(p) =~= tile_powers(s).insert((p + 1) as u32));
        assert(merge_pass(s, j) == merge_pass(s2, j + 1));
        let q = (p + 1) as u32;
        let mp = merge_pass(s, j);
        assert forall|x: u32|
            tile_powers(mp).add(merged_sources(ev)).count(x) == tile_powers(s).add(
                merged_results(ev),
            ).count(x) by {
            let cp: nat = if x == p {
                1
            } else {
                0
            };
            let cq: nat = if x == q {
                1
            } else {
                0
            };
            assert(Multiset::singleton(p).count(x) == cp);
            assert(Multiset::singleton(q).count(x) == cq);
            assert(merged_sources(ev).count(x) == merged_sources(ev1).count(x) + 2 * cp);
            assert(merged_results(ev).count(x) == merged_results(ev1).count(x) + cq);
            assert(tile_powers(mp).add(merged_sources(ev1)).count(x) == tile_powers(s2).add(
                merged_results(ev1),
            ).count(x));
            assert(tile_powers(mp).count(x) + merged_sources(ev1).count(x) == tile_powers(
                s2,
            ).count(x) + merged_results(ev1).count(x));
            assert(tile_powers(s2).insert(p).insert(p).count(x) == tile_powers(s).insert(
                q,
            ).count(x));
            assert(tile_powers(s2).count(x) + 2 * cp == tile_powers(s).count(x) + cq);
        }
        assert(tile_powers(merge_pass(s, j)).add(merged_sources(ev))
            =~= tile_powers(s).add(merged_results(ev)));
    } else {
        lemma_merge_pass_conserves(s, j + 1);
    }
}

/// A merge pass that reports no event changed nothing.
pub proof fn lemma_merge_pass_no_events(s: Seq<u32>, j: int)
    requires
        merge_pass_events(s, j).len() == 0,
    ensures
        merge_pass(s, j) == s,
    decreases s.len() - j,
{
    if !(j < 0 || j + 1 >= s.len()) {
        if s[j] != 0 && s[j] == s[j + 1] {
            assert(merge_pass_events(s, j).len() > 0);
        } else {
            lemma_merge_pass_no_events(s, j + 1);
        }
    }
}

// ------------------------------------------------------------------
// Facts about a full move of one stack.
// ------------------------------------------------------------------

pub proof fn lemma_moved_stack_len(s: Seq<u32>)
    ensures
        moved_stack(s).len() == s.len(),
{
    lemma_compact_len(s);
    lemma_merge_pass_len(compact_seq(s), 0);
    lemma_compact_len(merge_pass(compact_seq(s), 0));
}

/// Conservation over a full move of one stack: the tiles afterwards,
/// together with the two sources of every merge, are the tiles before,
/// together with the result of every merge.
pub proof fn lemma_moved_stack_conserves(s: Seq<u32>)
    requires
        forall|k: int| 0 <= k < s.len() ==> s[k] < u32::MAX,
    ensures
        tile_powers(moved_stack(s)).add(merged_sources(stack_events(s)))
            == tile_powers(s).add(merged_results(stack_events(s))),
{
    let c = compact_seq(s);
    lemma_compact_bounded(s, u32::MAX);
    lemma_compact_len(s);
    lemma_tile_powers_compact(s);
    lemma_merge_pass_conserves(c, 0);
    lemma_tile_powers_compact(merge_pass(c, 0));
}

/// A full move leaves a stack unchanged exactly when its compaction was
/// already a no-op and the merge pass found no pair.
pub proof fn lemma_moved_stack_fixed_iff(s: Seq<u32>)
    requires
        forall|k: int| 0 <= k < s.len() ==> s[k] < u32::MAX,
    ensures
        moved_stack(s) == s <==> (compact_seq(s) == s && stack_events(s).len() == 0),
        stack_events(s).len() == 0 ==> moved_stack(s) == compact_seq(s),
{
    let c = compact_seq(s);
    let m = merge_pass(c, 0);
    let k = stack_events(s).len();
    lemma_compact_bounded(s, u32::MAX);
    lemma_compact_len(s);
    if k == 0 {
        lemma_merge_pass_no_events(c, 0);
        lemma_compact_idempotent(s);
    }
    if moved_stack(s) == s {
        lemma_moved_stack_conserves(s);
        lemma_merged_sources_len(stack_events(s));
        lemma_merged_results_len(stack_events(s));
        assert(tile_powers(moved_stack(s)).add(merged_sources(stack_events(s))).len()
            == tile_powers(s).add(merged_results(stack_events(s))).len());
        assert(tile_powers(moved_stack(s)).len() + 2 * k == tile_powers(s).len() + k);
        assert(k == 0);
        lemma_merge_pass_no_events(c, 0);
        lemma_compact_idempotent(s);
    }
}

/// An upper bound on the cells carries over to the compacted stack.
pub proof fn lemma_compact_bounded(s: Seq<u32>, bound: u32)
    requires
        forall|k: int| 0 <= k < s.len() ==> s[k] < bound,
        bound > 0,
    ensures
        forall|k: int| 0 <= k < compact_seq(s).len() ==> compact_seq(s)[k] < bound,
{
    lemma_nonzeros_elements(s);
    lemma_nonzeros_len(s);
    assert forall|k: int| 0 <= k < compact_seq(s).len() implies compact_seq(s)[k] < bound by {
        if k < nonzeros(s).len() {
            assert(s.contains(nonzeros(s)[k]));
        } else {
            assert(compact_seq(s)[k] == 0);
        }
    }
}

} // verus!
