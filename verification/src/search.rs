//! The integer skeleton of the scroll search: which shifts are tried, in
//! which order they are refined, and which one is kept.  The costs that
//! rank the shifts are computed by the caller and handed in as keys whose
//! unsigned order is the order of the costs.
use vstd::prelude::*;

use crate::stitch::{max_nat, minimum_scroll_overlap, plausible_shift};

verus! {

/// Coarse shifts that are refined further.
pub const REFINED_CANDIDATES: usize = 12;

/// Rows on each side of a coarse shift that the refinement tries.
pub const REFINE_RADIUS: u32 = 4;

/// Smallest shift that the search reports.
pub const MIN_SHIFT: u32 = 6;

/// The largest shift that the search tries between frames of the given
/// size, or `None` when the frames are too small to be matched.
pub open spec fn search_limit(width: nat, height: nat) -> Option<nat> {
    if width < 32 || height < 120 {
        None
    } else {
        Some((height - minimum_scroll_overlap(height)) as nat)
    }
}

/// The largest shift to try between frames of the given size: frames
/// narrower than 32 or lower than 120 pixels are not matched, and at least
/// a quarter of the height, and no fewer than 96 rows, must stay in common.
pub fn scroll_search_limit(width: u32, height: u32) -> (limit: Option<u32>)
    ensures
        match search_limit(width as nat, height as nat) {
            None => limit is None,
            Some(m) => limit == Some(m as u32),
        },
        limit matches Some(m) ==> MIN_SHIFT <= m && forall|k: nat|
            MIN_SHIFT <= k <= m ==> #[trigger] plausible_shift(width as nat, height as nat, k),
{
    if width < 32 || height < 120 {
        return None;
    }
    let quarter: u32 = height / 4;
    let wanted: u32 = if quarter > 96 {
        quarter
    } else {
        96
    };
    let ceiling: u32 = if height >= 8 {
        height - 8
    } else {
        0
    };
    let minimum_overlap: u32 = if wanted < ceiling {
        wanted
    } else {
        ceiling
    };
    let maximum_shift: u32 = height - minimum_overlap;
    if maximum_shift < MIN_SHIFT {
        return None;
    }
    proof {
        assert(minimum_overlap == minimum_scroll_overlap(height as nat));
    }
    Some(maximum_shift)
}

/// The coarse shifts: every other shift from [`MIN_SHIFT`] up to `limit`.
pub fn coarse_shifts(limit: u32) -> (shifts: Vec<u32>)
    requires
        MIN_SHIFT <= limit,
    ensures
        shifts@.len() == (limit - MIN_SHIFT) / 2 + 1,
        forall|i: int| 0 <= i < shifts@.len() ==> #[trigger] shifts@[i] == MIN_SHIFT + 2 * i,
{
    let mut shifts: Vec<u32> = Vec::new();
    let mut s: u32 = MIN_SHIFT;
    while s <= limit
        invariant
            MIN_SHIFT <= s,
            s <= limit + 2,
            (s - MIN_SHIFT) % 2 == 0,
            shifts@.len() == (s - MIN_SHIFT) / 2,
            forall|i: int| 0 <= i < shifts@.len() ==> #[trigger] shifts@[i] == MIN_SHIFT + 2 * i,
        decreases limit + 2 - s,
    {
        shifts.push(s);
        if limit - s < 2 {
            proof {
                assert(shifts@.len() == (limit - MIN_SHIFT) / 2 + 1);
            }
            return shifts;
        }
        s = s + 2;
    }
    shifts
}

/// Whether candidate `i` comes before candidate `j` when the candidates
/// are sorted by key, equal keys keeping their order.
pub open spec fn ranks_before(keys: Seq<u32>, i: int, j: int) -> bool {
    keys[i] < keys[j] || (keys[i] == keys[j] && i < j)
}

/// Whether `picked` lists the first candidates, by index, of the
/// candidates sorted by key with equal keys kept in order: the first is
/// the smallest, each next one is the one right after the previous, and
/// fewer than [`REFINED_CANDIDATES`] are listed only when no candidate
/// is left.
pub open spec fn sorted_prefix(keys: Seq<u32>, picked: Seq<int>) -> bool {
    &&& picked.len() <= REFINED_CANDIDATES
    &&& forall|t: int| 0 <= t < picked.len() ==> 0 <= #[trigger] picked[t] < keys.len()
    &&& picked.len() > 0 ==> forall|j: int| 0 <= j < keys.len() ==> !ranks_before(keys, j, picked[0])
    &&& forall|t: int, j: int|
        0 <= t < picked.len() - 1 && 0 <= j < keys.len() ==> {
            &&& ranks_before(keys, #[trigger] picked[t], picked[t + 1])
            &&& !(ranks_before(keys, picked[t], j) && #[trigger] ranks_before(keys, j, picked[t + 1]))
        }
    &&& picked.len() < REFINED_CANDIDATES ==> (if picked.len() == 0 {
        keys.len() == 0
    } else {
        forall|j: int| 0 <= j < keys.len() ==> !ranks_before(keys, picked.last(), j)
    })
}

/// The index of the candidate that comes right after `prev` in the order
/// of [`ranks_before`] (or the first candidate when `prev` is `None`).
fn next_in_order(keys: &Vec<u32>, prev: Option<usize>) -> (next: Option<usize>)
    requires
        prev matches Some(p) ==> p < keys@.len(),
    ensures
        match next {
            Some(n) => {
                &&& n < keys@.len()
                &&& (prev matches Some(p) ==> ranks_before(keys@, p as int, n as int))
                &&& forall|j: int|
                    0 <= j < keys@.len() && (prev matches Some(p) ==> ranks_before(keys@, p as int, j))
                        ==> !#[trigger] ranks_before(keys@, j, n as int)
            },
            None => match prev {
                None => keys@.len() == 0,
                Some(p) => forall|j: int|
                    0 <= j < keys@.len() ==> !#[trigger] ranks_before(keys@, p as int, j),
            },
        },
{
    let n = keys.len();
    let mut best: Option<usize> = None;
    let mut j: usize = 0;
    while j < n
        invariant
            j <= n == keys@.len(),
            prev matches Some(p) ==> p < n,
            match best {
                Some(b) => {
                    &&& b < j
                    &&& (prev matches Some(p) ==> ranks_before(keys@, p as int, b as int))
                    &&& forall|i: int|
                        0 <= i < j && (prev matches Some(p) ==> ranks_before(keys@, p as int, i))
                            ==> !#[trigger] ranks_before(keys@, i, b as int)
                },
                None => match prev {
                    None => j == 0,
                    Some(p) => forall|i: int|
                        0 <= i < j ==> !#[trigger] ranks_before(keys@, p as int, i),
                },
            },
        decreases n - j,
    {
        let after_prev = match prev {
            Some(p) => keys[p] < keys[j] || (keys[p] == keys[j] && p < j),
            None => true,
        };
        proof {
            assert(after_prev == (prev matches Some(p) ==> ranks_before(keys@, p as int, j as int)));
        }
        if after_prev {
            match best {
                Some(b) => {
                    if keys[j] < keys[b] {
                        proof {
                            assert forall|i: int|
                                0 <= i < j + 1 && (prev matches Some(p) ==> ranks_before(keys@, p as int, i))
                                    implies !#[trigger] ranks_before(keys@, i, j as int) by {
                                if i < j {
                                    assert(!ranks_before(keys@, i, b as int));
                                }
                            }
                        }
                        best = Some(j);
                    }
                },
                None => {
                    best = Some(j);
                },
            }
        }
        j = j + 1;
    }
    best
}

/// The first [`REFINED_CANDIDATES`] shifts in order of their keys, equal
/// keys keeping the order of `shifts`: what a stable sort by cost and
/// taking the first few gives.
pub fn best_coarse_shifts(shifts: &Vec<u32>, keys: &Vec<u32>) -> (best: Vec<u32>)
    requires
        shifts@.len() == keys@.len(),
    ensures
        exists|picked: Seq<int>|
            {
                &&& sorted_prefix(keys@, picked)
                &&& best@.len() == picked.len()
                &&& forall|t: int| 0 <= t < picked.len() ==> #[trigger] best@[t] == shifts@[picked[t]]
            },
{
    let mut best: Vec<u32> = Vec::new();
    let ghost mut picked: Seq<int> = Seq::empty();
    let mut prev: Option<usize> = None;
    let mut t: usize = 0;
    while t < REFINED_CANDIDATES
        invariant_except_break
            t <= REFINED_CANDIDATES,
            shifts@.len() == keys@.len(),
            picked.len() == t,
            best@.len() == t,
            forall|u: int| 0 <= u < t ==> 0 <= #[trigger] picked[u] < keys@.len(),
            forall|u: int| 0 <= u < t ==> #[trigger] best@[u] == shifts@[picked[u]],
            t > 0 ==> forall|j: int| 0 <= j < keys@.len() ==> !ranks_before(keys@, j, picked[0]),
            forall|u: int, j: int|
                0 <= u < picked.len() - 1 && 0 <= j < keys@.len() ==> {
                    &&& ranks_before(keys@, #[trigger] picked[u], picked[u + 1])
                    &&& !(ranks_before(keys@, picked[u], j) && #[trigger] ranks_before(
                        keys@,
                        j,
                        picked[u + 1],
                    ))
                },
            match prev {
                Some(p) => t > 0 && p as int == picked.last(),
                None => t == 0,
            },
        ensures
            sorted_prefix(keys@, picked),
            best@.len() == picked.len(),
            forall|u: int| 0 <= u < picked.len() ==> #[trigger] best@[u] == shifts@[picked[u]],
        decreases REFINED_CANDIDATES - t,
    {
        let next = next_in_order(keys, prev);
        match next {
            Some(n) => {
                proof {
                    let old_picked = picked;
                    picked = picked.push(n as int);
                    assert forall|u: int, j: int|
                        0 <= u < picked.len() - 1 && 0 <= j < keys@.len() implies {
                            &&& ranks_before(keys@, #[trigger] picked[u], picked[u + 1])
                            &&& !(ranks_before(keys@, picked[u], j) && #[trigger] ranks_before(
                                keys@,
                                j,
                                picked[u + 1],
                            ))
                        } by {
                        if u < old_picked.len() - 1 {
                            assert(picked[u] == old_picked[u] && picked[u + 1] == old_picked[u + 1]);
                        }
                    }
                }
                best.push(shifts[n]);
                prev = Some(n);
                t = t + 1;
            },
            None => {
                break;
            },
        }
    }
    best
}

/// The shifts that the refinement tries around one coarse shift:
/// [`REFINE_RADIUS`] rows each side, kept within [`MIN_SHIFT`]..=`limit`.
pub open spec fn refine_window(coarse: nat, limit: nat) -> Seq<nat> {
    let start = max_nat(if coarse >= REFINE_RADIUS { (coarse - REFINE_RADIUS) as nat } else { 0 }, MIN_SHIFT as nat);
    let end: nat = if coarse + REFINE_RADIUS < limit { (coarse + REFINE_RADIUS) as nat } else { limit };
    if end < start {
        Seq::empty()
    } else {
        Seq::new((end - start + 1) as nat, |i: int| (start + i) as nat)
    }
}

/// The shifts that the refinement tries, in order: the window of each
/// coarse shift in turn.
pub open spec fn refine_order(coarse: Seq<u32>, limit: nat) -> Seq<nat>
    decreases coarse.len(),
{
    if coarse.len() == 0 {
        Seq::empty()
    } else {
        refine_order(coarse.drop_last(), limit) + refine_window(coarse.last() as nat, limit)
    }
}

proof fn lemma_refine_order_range(coarse: Seq<u32>, limit: nat)
    ensures
        forall|i: int|
            0 <= i < refine_order(coarse, limit).len() ==> MIN_SHIFT <= #[trigger] refine_order(
                coarse,
                limit,
            )[i] <= limit,
    decreases coarse.len(),
{
    if coarse.len() > 0 {
        let rest = coarse.drop_last();
        lemma_refine_order_range(rest, limit);
        let w = refine_window(coarse.last() as nat, limit);
        let r = refine_order(coarse, limit);
        assert(r == refine_order(rest, limit) + w);
        assert forall|i: int| 0 <= i < r.len() implies MIN_SHIFT <= #[trigger] r[i] <= limit by {
            if i >= refine_order(rest, limit).len() {
                let k = i - refine_order(rest, limit).len();
                assert(r[i] == w[k]);
            }
        }
    }
}

/// The shifts to refine, in the order in which they are tried.
pub fn refine_shifts(coarse: &Vec<u32>, limit: u32) -> (shifts: Vec<u32>)
    requires
        coarse@.len() <= REFINED_CANDIDATES,
        forall|i: int| 0 <= i < coarse@.len() ==> MIN_SHIFT <= #[trigger] coarse@[i] <= limit,
    ensures
        shifts@.len() == refine_order(coarse@, limit as nat).len(),
        forall|i: int|
            0 <= i < shifts@.len() ==> #[trigger] shifts@[i] == refine_order(coarse@, limit as nat)[i],
        forall|i: int| 0 <= i < shifts@.len() ==> MIN_SHIFT <= #[trigger] shifts@[i] <= limit,
{
    let mut shifts: Vec<u32> = Vec::new();
    let mut c: usize = 0;
    while c < coarse.len()
        invariant
            c <= coarse@.len() <= REFINED_CANDIDATES,
            forall|i: int| 0 <= i < coarse@.len() ==> MIN_SHIFT <= #[trigger] coarse@[i] <= limit,
            shifts@.len() == refine_order(coarse@.subrange(0, c as int), limit as nat).len(),
            forall|i: int|
                0 <= i < shifts@.len() ==> #[trigger] shifts@[i] == refine_order(
                    coarse@.subrange(0, c as int),
                    limit as nat,
                )[i],
        decreases coarse@.len() - c,
    {
        let centre = coarse[c];
        let low: u32 = if centre >= REFINE_RADIUS {
            centre - REFINE_RADIUS
        } else {
            0
        };
        let start: u32 = if low > MIN_SHIFT {
            low
        } else {
            MIN_SHIFT
        };
        let end: u32 = if limit - centre > REFINE_RADIUS {
            centre + REFINE_RADIUS
        } else {
            limit
        };
        let ghost before = shifts@;
        let ghost win = refine_window(centre as nat, limit as nat);
        let mut s: u32 = start;
        loop
            invariant_except_break
                start <= s <= end,
                shifts@.len() == before.len() + (s - start),
                forall|i: int| 0 <= i < s - start ==> #[trigger] shifts@[before.len() + i] == start + i,
            invariant
                end <= limit,
                start <= end,
                forall|i: int| 0 <= i < before.len() ==> #[trigger] shifts@[i] == before[i],
            ensures
                shifts@.len() == before.len() + (end - start + 1),
                forall|i: int| 0 <= i <= end - start ==> #[trigger] shifts@[before.len() + i] == start + i,
            decreases end - s,
        {
            shifts.push(s);
            if s == end {
                break;
            }
            s = s + 1;
        }
        proof {
            let prefix = coarse@.subrange(0, c as int);
            let next = coarse@.subrange(0, c + 1);
            assert(next.drop_last() =~= prefix);
            assert(next.last() == centre);
            let ro = refine_order(next, limit as nat);
            assert(ro == refine_order(prefix, limit as nat) + win);
            assert(shifts@.len() == ro.len());
            assert forall|i: int| 0 <= i < shifts@.len() implies #[trigger] shifts@[i] == ro[i] by {
                if i >= before.len() {
                    assert(shifts@[before.len() + (i - before.len())] == start + (i - before.len()));
                }
            }
        }
        c = c + 1;
    }
    proof {
        assert(coarse@.subrange(0, coarse@.len() as int) =~= coarse@);
        lemma_refine_order_range(coarse@, limit as nat);
    }
    shifts
}

/// Whether `i` is the first position of the smallest key.
pub open spec fn first_minimum(keys: Seq<u32>, i: int) -> bool {
    &&& 0 <= i < keys.len()
    &&& forall|j: int| 0 <= j < keys.len() ==> keys[i] <= #[trigger] keys[j]
    &&& forall|j: int| 0 <= j < i ==> keys[i] < #[trigger] keys[j]
}

/// The refined shift with the smallest combined cost, the first one among
/// equals, if its costs are within the thresholds (`acceptable`);
/// `None` when there is no shift or the best one is not acceptable.
pub fn pick_shift(shifts: &Vec<u32>, keys: &Vec<u32>, acceptable: &Vec<bool>) -> (picked: Option<u32>)
    requires
        shifts@.len() == keys@.len(),
        shifts@.len() == acceptable@.len(),
    ensures
        shifts@.len() == 0 ==> picked is None,
        shifts@.len() > 0 ==> exists|i: int| #[trigger] first_minimum(keys@, i),
        forall|i: int|
            #[trigger] first_minimum(keys@, i) ==> picked == (if acceptable@[i] {
                Some(shifts@[i])
            } else {
                None::<u32>
            }),
        picked matches Some(k) ==> exists|i: int| 0 <= i < shifts@.len() && shifts@[i] == k,
{
    let n = shifts.len();
    if n == 0 {
        return None;
    }
    let mut best: usize = 0;
    let mut i: usize = 1;
    while i < n
        invariant
            1 <= i <= n,
            n == shifts@.len() == keys@.len() == acceptable@.len(),
            best < i,
            forall|j: int| 0 <= j < i ==> keys@[best as int] <= #[trigger] keys@[j],
            forall|j: int| 0 <= j < best ==> keys@[best as int] < #[trigger] keys@[j],
        decreases n - i,
    {
        if keys[i] < keys[best] {
            best = i;
        }
        i = i + 1;
    }
    proof {
        assert(first_minimum(keys@, best as int));
        assert forall|k: int| #[trigger] first_minimum(keys@, k) implies k == best by {
            if k < best {
                assert(keys@[best as int] < keys@[k]);
            } else if k > best {
                assert(keys@[k] < keys@[best as int]);
            }
        }
    }
    if acceptable[best] {
        Some(shifts[best])
    } else {
        None
    }
}

/// The shift kept among `shifts` with the given combined-cost keys and
/// threshold results: the first one of smallest key, if it is acceptable.
pub open spec fn chosen_shift(shifts: Seq<nat>, keys: Seq<u32>, acceptable: Seq<bool>) -> Option<u32> {
    if exists|i: int| #[trigger] first_minimum(keys, i) {
        let i = choose|i: int| #[trigger] first_minimum(keys, i);
        if acceptable[i] {
            Some(shifts[i] as u32)
        } else {
            None
        }
    } else {
        None
    }
}

/// The outcome `r` of a scroll search between frames of the given size:
/// `row_key` gave the keys `row_keys` of the coarse shifts, `picked` are
/// the first of them in order of key, the refined shifts around those
/// were given keys and threshold results by `costs`, and `r` is the one
/// kept.
pub open spec fn search_outcome<R: Fn(u32) -> u32, C: Fn(u32) -> (u32, bool)>(
    width: u32,
    height: u32,
    row_key: R,
    costs: C,
    row_keys: Seq<u32>,
    picked: Seq<int>,
    refined_keys: Seq<u32>,
    acceptable: Seq<bool>,
    r: Option<u32>,
) -> bool {
    match search_limit(width as nat, height as nat) {
        None => r is None,
        Some(limit) => {
            let n = (limit - MIN_SHIFT) / 2 + 1;
            let best = Seq::new(picked.len(), |t: int| (MIN_SHIFT + 2 * picked[t]) as u32);
            let refined = refine_order(best, limit);
            &&& row_keys.len() == n
            &&& forall|i: int|
                0 <= i < n ==> #[trigger] row_key.ensures(((MIN_SHIFT + 2 * i) as u32,), row_keys[i])
            &&& sorted_prefix(row_keys, picked)
            &&& refined_keys.len() == refined.len()
            &&& acceptable.len() == refined.len()
            &&& forall|j: int|
                0 <= j < refined.len() ==> #[trigger] costs.ensures(
                    (refined[j] as u32,),
                    (refined_keys[j], acceptable[j]),
                )
            &&& r == chosen_shift(refined, refined_keys, acceptable)
        },
    }
}

/// The scroll search between two frames of the given size: the coarse
/// shifts are ranked by `row_key` (the key of the row-feature cost of a
/// shift), the first [`REFINED_CANDIDATES`] are refined, each refined
/// shift is given its combined-cost key and whether its costs are within
/// the thresholds by `costs`, and the best one is kept if acceptable.
/// Every shift found is plausible for the stitcher.
pub fn find_scroll_shift<R: Fn(u32) -> u32, C: Fn(u32) -> (u32, bool)>(
    width: u32,
    height: u32,
    row_key: R,
    costs: C,
) -> (r: Option<u32>)
    requires
        forall|s: u32| #[trigger] row_key.requires((s,)),
        forall|s: u32| #[trigger] costs.requires((s,)),
    ensures
        r matches Some(k) ==> plausible_shift(width as nat, height as nat, k as nat),
        exists|row_keys: Seq<u32>, picked: Seq<int>, refined_keys: Seq<u32>, acceptable: Seq<bool>|
            #[trigger] search_outcome(
                width,
                height,
                row_key,
                costs,
                row_keys,
                picked,
                refined_keys,
                acceptable,
                r,
            ),
{
    let limit = match scroll_search_limit(width, height) {
        Some(m) => m,
        None => {
            proof {
                assert(search_outcome(
                    width,
                    height,
                    row_key,
                    costs,
                    Seq::empty(),
                    Seq::empty(),
                    Seq::empty(),
                    Seq::empty(),
                    None,
                ));
            }
            return None;
        },
    };
    let shifts = coarse_shifts(limit);
    let mut keys: Vec<u32> = Vec::new();
    let mut i: usize = 0;
    while i < shifts.len()
        invariant
            i <= shifts@.len(),
            keys@.len() == i,
            forall|s: u32| #[trigger] row_key.requires((s,)),
            forall|j: int| 0 <= j < i ==> #[trigger] row_key.ensures((shifts@[j],), keys@[j]),
        decreases shifts@.len() - i,
    {
        let k = row_key(shifts[i]);
        keys.push(k);
        i = i + 1;
    }
    let best = best_coarse_shifts(&shifts, &keys);
    let ghost picked = choose|picked: Seq<int>|
        {
            &&& sorted_prefix(keys@, picked)
            &&& best@.len() == picked.len()
            &&& forall|t: int| 0 <= t < picked.len() ==> #[trigger] best@[t] == shifts@[picked[t]]
        };
    proof {
        assert forall|t: int| 0 <= t < best@.len() implies MIN_SHIFT <= #[trigger] best@[t] <= limit by {
            assert(best@[t] == shifts@[picked[t]]);
        }
    }
    let refined = refine_shifts(&best, limit);
    let mut refined_keys: Vec<u32> = Vec::new();
    let mut acceptable: Vec<bool> = Vec::new();
    let mut j: usize = 0;
    while j < refined.len()
        invariant
            j <= refined@.len(),
            refined_keys@.len() == j,
            acceptable@.len() == j,
            forall|s: u32| #[trigger] costs.requires((s,)),
            forall|q: int|
                0 <= q < j ==> #[trigger] costs.ensures((refined@[q],), (refined_keys@[q], acceptable@[q])),
        decreases refined@.len() - j,
    {
        let (k, ok) = costs(refined[j]);
        refined_keys.push(k);
        acceptable.push(ok);
        j = j + 1;
    }
    let r = pick_shift(&refined, &refined_keys, &acceptable);
    proof {
        let m = limit as nat;
        let spec_best = Seq::new(picked.len(), |t: int| (MIN_SHIFT + 2 * picked[t]) as u32);
        assert(spec_best =~= best@);
        let spec_refined = refine_order(spec_best, m);
        assert forall|q: int| 0 <= q < refined@.len() implies #[trigger] spec_refined[q] as u32 == refined@[q] by {}
        assert forall|q: int| 0 <= q < spec_refined.len() implies #[trigger] costs.ensures(
            (spec_refined[q] as u32,),
            (refined_keys@[q], acceptable@[q]),
        ) by {
            assert(spec_refined[q] as u32 == refined@[q]);
        }
        assert forall|q: int| 0 <= q < keys@.len() implies #[trigger] row_key.ensures(
            ((MIN_SHIFT + 2 * q) as u32,),
            keys@[q],
        ) by {
            assert(shifts@[q] == MIN_SHIFT + 2 * q);
        }
        if refined@.len() > 0 {
            let w = choose|w: int| #[trigger] first_minimum(refined_keys@, w);
            assert(first_minimum(refined_keys@, w));
        }
        assert(r == chosen_shift(spec_refined, refined_keys@, acceptable@));
        assert(search_outcome(width, height, row_key, costs, keys@, picked, refined_keys@, acceptable@, r));
        if r is Some {
            let k = r->0;
            let w = choose|w: int| 0 <= w < refined@.len() && refined@[w] == k;
            assert(MIN_SHIFT <= refined@[w] <= limit);
            assert(plausible_shift(width as nat, height as nat, k as nat));
        }
    }
    r
}

} // verus!
