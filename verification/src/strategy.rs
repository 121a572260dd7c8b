//! Rule selection and application strategies.

use vstd::prelude::*;
use crate::pattern::Match;
use crate::graph::NodeId;

verus! {

/// A source of random 64-bit values.
///
/// Nothing is assumed of the values of a source in general: every statement
/// about a function that draws from a `RandomSource` holds for whatever
/// values it returns. A source that states its values (`obeys_draws`) says
/// which value it yields next (`next_value`) and what it becomes after
/// (`after_draw`); statements about such a source name the values drawn.
pub trait RandomSource: Sized {
    /// Whether this source states its values.
    open spec fn obeys_draws() -> bool {
        false
    }

    /// The value the next draw yields, for a source that states its values.
    open spec fn next_value(&self) -> u64 {
        0
    }

    /// The source after a draw, for a source that states its values.
    open spec fn after_draw(&self) -> Self {
        *self
    }

    /// The next random value.
    fn next_u64(&mut self) -> (r: u64)
        ensures
            Self::obeys_draws() ==> r == old(self).next_value() && *final(self) == old(self).after_draw(),
    ;
}

#[verifier::external_type_specification]
#[verifier::external_body]
pub struct ExSmallRng(rand::rngs::SmallRng);

/// Calls `rand_core::RngCore::next_u64` on a `SmallRng`. No property of the
/// value is claimed.
#[verifier::external_body]
fn small_rng_next_u64(rng: &mut rand::rngs::SmallRng) -> u64 {
    rand_core::RngCore::next_u64(rng)
}

impl RandomSource for rand::rngs::SmallRng {
    fn next_u64(&mut self) -> u64 {
        small_rng_next_u64(self)
    }
}

// ----- weighted selection -----

/// Sum of the weights of the first `k` candidates.
pub open spec fn weight_prefix(candidates: Seq<(usize, Match, u32)>, k: int) -> int
    decreases k,
{
    if k <= 0 {
        0
    } else {
        weight_prefix(candidates, k - 1) + candidates[k - 1].2
    }
}

/// Sum of all candidate weights.
pub open spec fn weight_total(candidates: Seq<(usize, Match, u32)>) -> int {
    weight_prefix(candidates, candidates.len() as int)
}

/// Candidate `i` is the one whose weight interval contains `pick`: the
/// weights before it sum to at most `pick`, and with its own weight to more.
pub open spec fn picked_by(candidates: Seq<(usize, Match, u32)>, pick: int, i: int) -> bool {
    &&& 0 <= i < candidates.len()
    &&& weight_prefix(candidates, i) <= pick < weight_prefix(candidates, i + 1)
}

proof fn lemma_weight_prefix_mono(candidates: Seq<(usize, Match, u32)>, a: int, b: int)
    requires
        0 <= a <= b,
    ensures
        weight_prefix(candidates, a) <= weight_prefix(candidates, b),
    decreases b - a,
{
    if a < b {
        lemma_weight_prefix_mono(candidates, a, b - 1);
    }
}

/// A value picks at most one candidate: the weight intervals do not overlap.
pub proof fn lemma_pick_unique(candidates: Seq<(usize, Match, u32)>, pick: int, i: int, j: int)
    requires
        picked_by(candidates, pick, i),
        picked_by(candidates, pick, j),
    ensures
        i == j,
{
    if i < j {
        lemma_weight_prefix_mono(candidates, i + 1, j);
    } else if j < i {
        lemma_weight_prefix_mono(candidates, j + 1, i);
    }
}

/// Every value below the total weight picks some candidate.
pub proof fn lemma_pick_exists(candidates: Seq<(usize, Match, u32)>, pick: int)
    requires
        0 <= pick < weight_total(candidates),
    ensures
        exists|i: int| #[trigger] picked_by(candidates, pick, i),
{
    lemma_pick_from(candidates, pick, 0);
}

proof fn lemma_pick_from(candidates: Seq<(usize, Match, u32)>, pick: int, k: int)
    requires
        0 <= k <= candidates.len(),
        weight_prefix(candidates, k) <= pick < weight_total(candidates),
    ensures
        exists|i: int| #[trigger] picked_by(candidates, pick, i),
    decreases candidates.len() - k,
{
    if k == candidates.len() {
    } else if pick < weight_prefix(candidates, k + 1) {
        assert(picked_by(candidates, pick, k));
    } else {
        lemma_pick_from(candidates, pick, k + 1);
    }
}

proof fn lemma_weight_prefix_bound(candidates: Seq<(usize, Match, u32)>, k: int)
    requires
        0 <= k,
    ensures
        0 <= weight_prefix(candidates, k) <= k * 0xffff_ffff,
    decreases k,
{
    if k > 0 {
        lemma_weight_prefix_bound(candidates, k - 1);
    }
}

/// The total weight is never negative.
pub proof fn lemma_weight_total_nonneg(candidates: Seq<(usize, Match, u32)>)
    ensures
        weight_total(candidates) >= 0,
{
    lemma_weight_prefix_bound(candidates, candidates.len() as int);
}

/// Select candidate by a random value: `None` when there are no candidates
/// or their weights sum to zero; otherwise the candidate whose weight
/// interval contains `random` modulo the total weight.
pub fn select_match_by(candidates: &[(usize, Match, u32)], random: u64) -> (r: Option<(usize, Match)>)
    ensures
        (candidates@.len() == 0 || weight_total(candidates@) == 0) ==> r is None,
        (candidates@.len() > 0 && weight_total(candidates@) > 0) ==> (r matches Some(sel) && exists|i: int|
            picked_by(candidates@, random as int % weight_total(candidates@), i) && sel.0
                == candidates@[i].0 && sel.1.node_map@ == candidates@[i].1.node_map@),
{
    if candidates.len() == 0 {
        return None;
    }
    let mut total: u128 = 0;
    let mut k: usize = 0;
    while k < candidates.len()
        invariant
            0 <= k <= candidates@.len(),
            total as int == weight_prefix(candidates@, k as int),
            candidates@.len() <= usize::MAX,
        decreases candidates@.len() - k,
    {
        proof {
            lemma_weight_prefix_bound(candidates@, k as int);
            assert(k * 0xffff_ffff <= 0xffff_ffff_ffff_ffff * 0xffff_ffff) by (nonlinear_arith)
                requires
                    k <= 0xffff_ffff_ffff_ffff,
            ;
        }
        total = total + candidates[k].2 as u128;
        k = k + 1;
    }
    if total == 0 {
        return None;
    }
    let mut pick: u128 = random as u128 % total;
    let ghost pick0 = pick as int;
    let mut i: usize = 0;
    while i < candidates.len()
        invariant
            0 <= i <= candidates@.len(),
            total as int == weight_total(candidates@),
            total > 0,
            pick0 == random as int % weight_total(candidates@),
            pick as int == pick0 - weight_prefix(candidates@, i as int),
            weight_prefix(candidates@, i as int) <= pick0,
            pick0 < weight_total(candidates@),
        decreases candidates@.len() - i,
    {
        let w = candidates[i].2 as u128;
        if pick < w {
            let m = candidates[i].1.clone();
            proof {
                assert(picked_by(candidates@, pick0, i as int));
            }
            return Some((candidates[i].0, m));
        }
        pick = pick - w;
        i = i + 1;
    }
    proof {
        assert(false);
    }
    let last = candidates.len() - 1;
    Some((candidates[last].0, candidates[last].1.clone()))
}

/// Select a match from a set of candidates using weighted random selection.
/// No value is drawn when there are no candidates or the weights sum to zero.
pub fn select_match<R: RandomSource>(
    candidates: &[(usize, Match, u32)],
    rng: &mut R,
) -> (r: Option<(usize, Match)>)
    ensures
        (candidates@.len() == 0 || weight_total(candidates@) == 0) ==> r is None && *final(rng) == *old(rng),
        (candidates@.len() > 0 && weight_total(candidates@) > 0) ==> (r matches Some(sel)
            && exists|pick: int, i: int|
            #[trigger] picked_by(candidates@, pick, i) && sel.0
                == candidates@[i].0 && sel.1.node_map@ == candidates@[i].1.node_map@),
        R::obeys_draws() && candidates@.len() > 0 && weight_total(candidates@) > 0 ==> {
            &&& *final(rng) == old(rng).after_draw()
            &&& r matches Some(sel) && exists|i: int|
                #[trigger] picked_by(candidates@, old(rng).next_value() as int % weight_total(candidates@), i)
                    && sel.0 == candidates@[i].0 && sel.1.node_map@ == candidates@[i].1.node_map@
        },
{
    if candidates.len() == 0 {
        return None;
    }
    if all_weights_zero(candidates) {
        return None;
    }
    let random = rng.next_u64();
    let r = select_match_by(candidates, random);
    proof {
        if candidates@.len() > 0 && weight_total(candidates@) > 0 {
            let pick = random as int % weight_total(candidates@);
            let sel = r->0;
            let i = choose|i: int| picked_by(candidates@, pick, i) && sel.0 == candidates@[i].0
                && sel.1.node_map@ == candidates@[i].1.node_map@;
            assert(picked_by(candidates@, pick, i));
        }
    }
    r
}

/// Whether every weight is zero, that is, the weights sum to zero.
fn all_weights_zero(candidates: &[(usize, Match, u32)]) -> (r: bool)
    ensures
        r == (weight_total(candidates@) == 0),
{
    let mut k: usize = 0;
    while k < candidates.len()
        invariant
            0 <= k <= candidates@.len(),
            weight_prefix(candidates@, k as int) == 0,
        decreases candidates@.len() - k,
    {
        if candidates[k].2 != 0 {
            proof {
                lemma_weight_prefix_mono(candidates@, k + 1, candidates@.len() as int);
            }
            return false;
        }
        k = k + 1;
    }
    true
}

// ----- non-overlapping selection -----

/// Whether two node maps share a node.
pub open spec fn overlaps(a: Seq<NodeId>, b: Seq<NodeId>) -> bool {
    exists|i: int| 0 <= i < a.len() && b.contains(#[trigger] a[i])
}

/// Positions picked by a greedy pass over the first `k` node maps: a map is
/// picked when it shares no node with a map picked before it.
pub open spec fn greedy_picks(maps: Seq<Seq<NodeId>>, k: nat) -> Seq<int>
    decreases k,
{
    if k == 0 {
        Seq::empty()
    } else {
        let prev = greedy_picks(maps, (k - 1) as nat);
        if forall|t: int| 0 <= t < prev.len() ==> !overlaps(maps[k - 1], maps[#[trigger] prev[t]]) {
            prev.push(k - 1)
        } else {
            prev
        }
    }
}

/// The node maps of the candidates.
pub open spec fn candidate_maps(candidates: Seq<(usize, Match)>) -> Seq<Seq<NodeId>> {
    candidates.map_values(|c: (usize, Match)| c.1.node_map@)
}

/// `sel` holds, in order, the candidates at the positions `picks`.
pub open spec fn selected_at(
    candidates: Seq<(usize, Match)>,
    picks: Seq<int>,
    sel: Seq<(usize, Match)>,
) -> bool {
    &&& sel.len() == picks.len()
    &&& forall|t: int|
        0 <= t < sel.len() ==> (#[trigger] sel[t]).0 == candidates[picks[t]].0 && sel[t].1.node_map@
            == candidates[picks[t]].1.node_map@
}

/// Find all non-overlapping matches for parallel application.
/// Greedy: iterate candidates, skip any that share nodes with already-selected matches.
pub fn find_non_overlapping(candidates: &[(usize, Match)]) -> (r: Vec<(usize, Match)>)
    ensures
        selected_at(
            candidates@,
            greedy_picks(candidate_maps(candidates@), candidates@.len()),
            r@,
        ),
{
    let ghost maps = candidate_maps(candidates@);
    let mut selected: Vec<(usize, Match)> = Vec::new();
    let mut used_nodes: Vec<NodeId> = Vec::new();
    let mut k: usize = 0;
    while k < candidates.len()
        invariant
            0 <= k <= candidates@.len(),
            maps == candidate_maps(candidates@),
            selected_at(candidates@, greedy_picks(maps, k as nat), selected@),
            forall|x: NodeId|
                #[trigger] used_nodes@.contains(x) <==> exists|t: int|
                    0 <= t < greedy_picks(maps, k as nat).len() && maps[greedy_picks(
                        maps,
                        k as nat,
                    )[t]].contains(x),
            forall|t: int|
                0 <= t < greedy_picks(maps, k as nat).len() ==> 0 <= #[trigger] greedy_picks(
                    maps,
                    k as nat,
                )[t] < k,
        decreases candidates@.len() - k,
    {
        let ghost prev = greedy_picks(maps, k as nat);
        let m = &candidates[k].1;
        assert(m.node_map@ == maps[k as int]);
        let mut overlap = false;
        let mut i: usize = 0;
        while i < m.node_map.len()
            invariant
                0 <= i <= m.node_map@.len(),
                !overlap ==> forall|j: int| 0 <= j < i ==> !used_nodes@.contains(m.node_map@[j]),
                overlap ==> exists|j: int| 0 <= j < m.node_map@.len() && used_nodes@.contains(#[trigger] m.node_map@[j]),
            decreases m.node_map@.len() - i,
        {
            if crate::pattern::contains_node(&used_nodes, m.node_map[i]) {
                overlap = true;
            }
            i = i + 1;
        }
        proof {
            let cur = maps[k as int];
            if overlap {
                let j = choose|j: int| 0 <= j < m.node_map@.len() && used_nodes@.contains(#[trigger] m.node_map@[j]);
                let x = m.node_map@[j];
                assert(used_nodes@.contains(x));
                let t = choose|t: int| 0 <= t < prev.len() && maps[prev[t]].contains(x);
                assert(overlaps(cur, maps[prev[t]]));
                assert(!(forall|t: int| 0 <= t < prev.len() ==> !overlaps(cur, maps[#[trigger] prev[t]])));
                assert(greedy_picks(maps, (k + 1) as nat) == prev);
            } else {
                assert forall|t: int| 0 <= t < prev.len() implies !overlaps(cur, maps[#[trigger] prev[t]]) by {
                    if overlaps(cur, maps[prev[t]]) {
                        let j = choose|j: int| 0 <= j < cur.len() && maps[prev[t]].contains(#[trigger] cur[j]);
                        assert(used_nodes@.contains(cur[j]));
                    }
                }
                assert(greedy_picks(maps, (k + 1) as nat) == prev.push(k as int));
            }
        }
        if !overlap {
            let ghost used_before = used_nodes@;
            let mut i: usize = 0;
            while i < m.node_map.len()
                invariant
                    0 <= i <= m.node_map@.len(),
                    forall|x: NodeId|
                        #[trigger] used_nodes@.contains(x) <==> (used_before.contains(x)
                            || m.node_map@.take(i as int).contains(x)),
                decreases m.node_map@.len() - i,
            {
                let ghost before = used_nodes@;
                used_nodes.push(m.node_map[i]);
                proof {
                    assert(m.node_map@.take(i + 1) =~= m.node_map@.take(i as int).push(m.node_map@[i as int]));
                    assert forall|x: NodeId| #[trigger] used_nodes@.contains(x) <==> (used_before.contains(x)
                        || m.node_map@.take(i + 1).contains(x)) by {
                        crate::graph::lemma_seq_push_contains(before, m.node_map@[i as int], x);
                        crate::graph::lemma_seq_push_contains(m.node_map@.take(i as int), m.node_map@[i as int], x);
                    }
                }
                i = i + 1;
            }
            let mc = m.clone();
            selected.push((candidates[k].0, mc));
            proof {
                assert(m.node_map@.take(m.node_map@.len() as int) =~= m.node_map@);
                let np = greedy_picks(maps, (k + 1) as nat);
                assert(np == prev.push(k as int));
                assert forall|x: NodeId| #[trigger] used_nodes@.contains(x) <==> exists|t: int|
                    0 <= t < np.len() && maps[np[t]].contains(x) by {
                    if used_nodes@.contains(x) {
                        if used_before.contains(x) {
                            let t = choose|t: int| 0 <= t < prev.len() && maps[prev[t]].contains(x);
                            assert(np[t] == prev[t]);
                        } else {
                            assert(np[prev.len() as int] == k);
                        }
                    }
                    if exists|t: int| 0 <= t < np.len() && maps[np[t]].contains(x) {
                        let t = choose|t: int| 0 <= t < np.len() && maps[np[t]].contains(x);
                        if t < prev.len() {
                            assert(np[t] == prev[t]);
                        }
                    }
                }
                assert(selected_at(candidates@, np, selected@)) by {
                    assert forall|t: int| 0 <= t < selected@.len() implies (#[trigger] selected@[t]).0
                        == candidates@[np[t]].0 && selected@[t].1.node_map@ == candidates@[np[t]].1.node_map@ by {
                        if t < prev.len() {
                            assert(np[t] == prev[t]);
                        }
                    }
                }
            }
        }
        k = k + 1;
    }
    selected
}

/// The greedy picks are pairwise disjoint, and every candidate left out
/// shares a node with a candidate picked before it.
pub proof fn lemma_greedy_picks(maps: Seq<Seq<NodeId>>, k: nat)
    requires
        k <= maps.len(),
    ensures
        forall|a: int, b: int|
            0 <= a < b < greedy_picks(maps, k).len() ==> !overlaps(
                maps[#[trigger] greedy_picks(maps, k)[b]],
                maps[#[trigger] greedy_picks(maps, k)[a]],
            ),
        forall|a: int, b: int|
            0 <= a < b < greedy_picks(maps, k).len() ==> #[trigger] greedy_picks(maps, k)[a]
                < #[trigger] greedy_picks(maps, k)[b],
        forall|a: int| 0 <= a < greedy_picks(maps, k).len() ==> 0 <= #[trigger] greedy_picks(maps, k)[a] < k,
        forall|i: int|
            0 <= i < k && !(#[trigger] greedy_picks(maps, k).contains(i)) ==> exists|t: int|
                0 <= t < greedy_picks(maps, k).len() && greedy_picks(maps, k)[t] < i && overlaps(
                    maps[i],
                    maps[greedy_picks(maps, k)[t]],
                ),
    decreases k,
{
    if k > 0 {
        lemma_greedy_picks(maps, (k - 1) as nat);
        let prev = greedy_picks(maps, (k - 1) as nat);
        let cur = greedy_picks(maps, k);
        if forall|t: int| 0 <= t < prev.len() ==> !overlaps(maps[k - 1], maps[#[trigger] prev[t]]) {
            assert(cur == prev.push(k - 1));
            assert forall|i: int| 0 <= i < k && !(#[trigger] cur.contains(i)) implies exists|t: int|
                0 <= t < cur.len() && cur[t] < i && overlaps(maps[i], maps[cur[t]]) by {
                if i == k - 1 {
                    assert(cur[prev.len() as int] == k - 1);
                } else {
                    if prev.contains(i) {
                        let t = choose|t: int| 0 <= t < prev.len() && prev[t] == i;
                        assert(cur[t] == i);
                    }
                    let t = choose|t: int| 0 <= t < prev.len() && prev[t] < i && overlaps(maps[i], maps[prev[t]]);
                    assert(cur[t] == prev[t]);
                }
            }
        } else {
            assert(cur == prev);
            assert forall|i: int| 0 <= i < k && !(#[trigger] cur.contains(i)) implies exists|t: int|
                0 <= t < cur.len() && cur[t] < i && overlaps(maps[i], maps[cur[t]]) by {
                if i == k - 1 {
                    let t = choose|t: int| 0 <= t < prev.len() && overlaps(maps[k - 1], maps[#[trigger] prev[t]]);
                }
            }
        }
    }
}

} // verus!
