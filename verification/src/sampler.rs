//! The transfer-time sampler: interval intensities, the weighted cumulative
//! distribution over the timeline, and the draw of dated donor/recipient
//! pairs.

use vstd::prelude::*;

use crate::metric::strictly_increasing_idx;
use crate::newick::spec_format_time;
use crate::rng::{WeightedU64, gen_range_u128, gen_range_usize, weighted_index_new, weighted_sample,
    weights_of};
use crate::surgery::can_spr;
use crate::tree::{FlatTree, wf};

verus! {

/// The summed transfer rate of the listed nodes; an index outside the rate
/// table counts as zero.
pub open spec fn spec_intensity(members: Seq<usize>, rates: Seq<u64>) -> int
    decreases members.len(),
{
    if members.len() == 0 {
        0
    } else {
        spec_intensity(members.drop_last(), rates) + (if members.last() < rates.len() {
            rates[members.last() as int] as int
        } else {
            0
        })
    }
}

/// Sums the transfer rates of the nodes alive on each interval.
pub fn compute_interval_intensity(contemporaneity: &Vec<Vec<usize>>, transfer_rates: &Vec<u64>) -> (
    r: Vec<u128>)
    requires
        contemporaneity@.len() <= u64::MAX,
        forall|j: int| 0 <= j < contemporaneity@.len() ==> (#[trigger] contemporaneity@[j])@.len()
            <= u64::MAX,
    ensures
        r@.len() == contemporaneity@.len(),
        forall|j: int| 0 <= j < r@.len() ==> r@[j] == spec_intensity(
            (#[trigger] contemporaneity@[j])@,
            transfer_rates@,
        ),
{
    let mut r: Vec<u128> = Vec::new();
    let mut j: usize = 0;
    while j < contemporaneity.len()
        invariant
            j <= contemporaneity@.len(),
            contemporaneity@.len() <= u64::MAX,
            forall|q: int| 0 <= q < contemporaneity@.len() ==> (
            #[trigger] contemporaneity@[q])@.len() <= u64::MAX,
            r@.len() == j,
            forall|q: int| 0 <= q < j ==> r@[q] == spec_intensity(
                (#[trigger] contemporaneity@[q])@,
                transfer_rates@,
            ),
        decreases contemporaneity@.len() - j,
    {
        let row = &contemporaneity[j];
        let ghost mseq = row@;
        let mut acc: u128 = 0;
        let mut k: usize = 0;
        while k < row.len()
            invariant
                k <= mseq.len(),
                mseq.len() <= u64::MAX,
                mseq == row@,
                acc == spec_intensity(mseq.subrange(0, k as int), transfer_rates@),
                acc <= k * 0xFFFF_FFFF_FFFF_FFFF,
            decreases mseq.len() - k,
        {
            proof {
                assert(mseq.subrange(0, k + 1).drop_last() =~= mseq.subrange(0, k as int));
                assert((k as int) * 0xFFFF_FFFF_FFFF_FFFF + 0xFFFF_FFFF_FFFF_FFFF == (k + 1)
                    * 0xFFFF_FFFF_FFFF_FFFF) by (nonlinear_arith);
                assert((k + 1) * 0xFFFF_FFFF_FFFF_FFFF <= (u64::MAX as int)
                    * 0xFFFF_FFFF_FFFF_FFFF) by (nonlinear_arith)
                    requires
                        k + 1 <= u64::MAX as int,
                ;
            }
            let m = row[k];
            if m < transfer_rates.len() {
                acc = acc + transfer_rates[m] as u128;
            }
            k = k + 1;
        }
        proof {
            assert(mseq.subrange(0, mseq.len() as int) =~= mseq);
        }
        r.push(acc);
        j = j + 1;
    }
    r
}

/// The partial sums of `intervals[q] * intensity[q]` up to and including
/// position `j`.
pub open spec fn spec_cdf_at(iv: Seq<u64>, it: Seq<u128>, j: int) -> int
    decreases j + 1,
{
    if j < 0 {
        0
    } else {
        spec_cdf_at(iv, it, j - 1) + iv[j] * it[j]
    }
}

/// Partial sums of non-negative products never decrease.
pub proof fn lemma_cdf_monotone(iv: Seq<u64>, it: Seq<u128>, j: int)
    requires
        0 <= j,
    ensures
        spec_cdf_at(iv, it, j - 1) <= spec_cdf_at(iv, it, j),
        0 <= spec_cdf_at(iv, it, j),
    decreases j + 1,
{
    if j > 0 {
        lemma_cdf_monotone(iv, it, j - 1);
    }
    assert(iv[j] * it[j] >= 0) by (nonlinear_arith)
        requires
            iv[j] >= 0,
            it[j] >= 0,
    ;
}

/// Builds the cumulative weights of the timeline: entry `j` is the sum of
/// `intervals[q] * intensity[q]` for `q` up to `j`.  The entries never
/// decrease, the first is zero whenever the first interval is zero, and the
/// last is the distribution's total weight.  `None` reports a total beyond
/// the wide machine range.
pub fn make_cdf(intervals: &Vec<u64>, transfer_intensity: &Vec<u128>) -> (r: Option<Vec<u128>>)
    requires
        intervals@.len() == transfer_intensity@.len(),
    ensures
        (match r {
            Some(c) => c@.len() == intervals@.len() && (forall|j: int|
                0 <= j < c@.len() ==> #[trigger] c@[j] == spec_cdf_at(
                    intervals@,
                    transfer_intensity@,
                    j,
                )) && (forall|j: int| 0 < j < c@.len() ==> c@[j - 1] <= #[trigger] c@[j]),
            None => spec_cdf_at(intervals@, transfer_intensity@, intervals@.len() - 1)
                > u128::MAX,
        }),
{
    let mut c: Vec<u128> = Vec::new();
    let mut j: usize = 0;
    let mut prev: u128 = 0;
    while j < intervals.len()
        invariant
            intervals@.len() == transfer_intensity@.len(),
            j <= intervals@.len(),
            c@.len() == j,
            prev == spec_cdf_at(intervals@, transfer_intensity@, j - 1),
            forall|q: int| 0 <= q < j ==> #[trigger] c@[q] == spec_cdf_at(
                intervals@,
                transfer_intensity@,
                q,
            ),
            forall|q: int| 0 < q < j ==> c@[q - 1] <= #[trigger] c@[q],
        decreases intervals@.len() - j,
    {
        let a = intervals[j];
        let b = transfer_intensity[j];
        // a * b, refused when it leaves the wide range
        if b > 0 && (a as u128) > u128::MAX / b {
            proof {
                lemma_mul_div_gt(a as int, b as int);
                lemma_cdf_monotone_upto(intervals@, transfer_intensity@, j as int, intervals@.len()
                    - 1);
            }
            return None;
        }
        proof {
            if b > 0 {
                lemma_mul_div_le(a as int, b as int);
            } else {
                assert((a as int) * (b as int) == 0) by (nonlinear_arith)
                    requires
                        b == 0,
                ;
            }
        }
        let p: u128 = (a as u128) * b;
        if p > u128::MAX - prev {
            proof {
                lemma_cdf_monotone_upto(intervals@, transfer_intensity@, j as int, intervals@.len()
                    - 1);
            }
            return None;
        }
        prev = prev + p;
        c.push(prev);
        proof {
            lemma_cdf_monotone(intervals@, transfer_intensity@, j as int);
        }
        j = j + 1;
    }
    Some(c)
}

/// When a prefix of the sums already leaves the range, so does the whole.
proof fn lemma_cdf_monotone_upto(iv: Seq<u64>, it: Seq<u128>, j: int, m: int)
    requires
        0 <= j <= m < iv.len(),
    ensures
        spec_cdf_at(iv, it, j) <= spec_cdf_at(iv, it, m),
    decreases m - j,
{
    if j < m {
        lemma_cdf_monotone_upto(iv, it, j + 1, m);
        lemma_cdf_monotone(iv, it, j + 1);
    }
}

/// Division characterizes overflow of the product from above.
proof fn lemma_mul_div_gt(a: int, b: int)
    requires
        b > 0,
        a > (u128::MAX as int) / b,
    ensures
        a * b > u128::MAX,
{
    let q = (u128::MAX as int) / b;
    vstd::arithmetic::div_mod::lemma_fundamental_div_mod(u128::MAX as int, b);
    vstd::arithmetic::div_mod::lemma_mod_bound(u128::MAX as int, b);
    assert(a * b >= (q + 1) * b) by (nonlinear_arith)
        requires
            a >= q + 1,
            b > 0,
    ;
    assert((q + 1) * b == q * b + b) by (nonlinear_arith);
    assert((u128::MAX as int) % b < b);
}

/// And from below.
proof fn lemma_mul_div_le(a: int, b: int)
    requires
        b > 0,
        0 <= a <= (u128::MAX as int) / b,
    ensures
        0 <= a * b <= u128::MAX,
{
    let q = (u128::MAX as int) / b;
    vstd::arithmetic::div_mod::lemma_fundamental_div_mod(u128::MAX as int, b);
    vstd::arithmetic::div_mod::lemma_mod_bound(u128::MAX as int, b);
    assert(a * b <= q * b) by (nonlinear_arith)
        requires
            a <= q,
            b > 0,
    ;
    assert(a * b >= 0) by (nonlinear_arith)
        requires
            a >= 0,
            b > 0,
    ;
    assert((u128::MAX as int) % b >= 0);
}

/// The drawn time of §-style linear interpolation: the interval's left end
/// plus the draw's offset into the interval divided by its intensity.
pub open spec fn interp_time(base: u64, draw: int, low: int, it: int) -> int {
    base + (draw - low) / it
}

/// The coupling between a cumulative-weight vector, the subdivision and the
/// intensities that `choose_from_cdf` relies on.
pub open spec fn cdf_matches(c: Seq<u128>, depths: Seq<u64>, it: Seq<u128>) -> bool {
    &&& c.len() == depths.len()
    &&& c.len() == it.len()
    &&& c.len() >= 1
    &&& c[0] == 0
    &&& forall|j: int| 0 < j < c.len() ==> #[trigger] c[j] - c[j - 1] == (depths[j] - depths[j
        - 1]) * it[j]
    &&& forall|i: int, j: int|
        #![trigger depths[i], depths[j]]
        0 <= i < j < depths.len() ==> depths[i] < depths[j]
    &&& forall|i: int, j: int| #![trigger c[i], c[j]] 0 <= i <= j < c.len() ==> c[i] <= c[j]
}

/// Pairwise order follows from adjacent order.
pub proof fn lemma_pairwise_from_adjacent(c: Seq<u128>)
    requires
        forall|j: int| 0 < j < c.len() ==> c[j - 1] <= #[trigger] c[j],
    ensures
        forall|i: int, j: int| #![trigger c[i], c[j]] 0 <= i <= j < c.len() ==> c[i] <= c[j],
{
    assert forall|i: int, j: int| #![trigger c[i], c[j]] 0 <= i <= j < c.len() implies c[i]
        <= c[j] by {
        lemma_run_mono(c, i, j);
    }
}

proof fn lemma_run_mono(c: Seq<u128>, i: int, j: int)
    requires
        forall|q: int| 0 < q < c.len() ==> c[q - 1] <= #[trigger] c[q],
        0 <= i <= j < c.len(),
    ensures
        c[i] <= c[j],
    decreases j - i,
{
    if i < j {
        lemma_run_mono(c, i, j - 1);
    }
}

/// Draws a continuous transfer time: a uniform value below the total weight
/// picks the interval whose cumulative range contains it, and the time
/// interpolates linearly inside that interval.
pub fn choose_from_cdf(
    cdf: &Vec<u128>,
    depths: &Vec<u64>,
    intensity: &Vec<u128>,
    rng: &mut rand::rngs::StdRng,
) -> (r: (u64, usize))
    requires
        cdf_matches(cdf@, depths@, intensity@),
        cdf@.last() > 0,
    ensures
        ({
            let (time, index) = r;
            &&& 1 <= index < cdf@.len()
            &&& cdf@[index as int - 1] < cdf@[index as int]
            &&& depths@[index as int - 1] <= time < depths@[index as int]
            &&& exists|draw: int|
                0 <= draw < cdf@.last() && cdf@[index as int - 1] <= draw < cdf@[index as int]
                    && time == #[trigger] interp_time(
                    depths@[index as int - 1],
                    draw,
                    cdf@[index as int - 1] as int,
                    intensity@[index as int] as int,
                )
        }),
{
    let ghost c = cdf@;
    let total = cdf[cdf.len() - 1];
    let draw = gen_range_u128(rng, total);
    // the first index whose cumulative weight exceeds the draw
    let mut lo: usize = 0;
    let mut hi: usize = cdf.len();
    while lo < hi
        invariant
            cdf_matches(cdf@, depths@, intensity@),
            lo <= hi <= cdf@.len(),
            forall|q: int| 0 <= q < lo ==> #[trigger] cdf@[q] <= draw,
            forall|q: int| hi <= q < cdf@.len() ==> #[trigger] cdf@[q] > draw,
            draw < cdf@.last(),
        decreases hi - lo,
    {
        let mid = lo + (hi - lo) / 2;
        if cdf[mid] <= draw {
            lo = mid + 1;
        } else {
            hi = mid;
        }
    }
    let index = lo;
    proof {
        assert(cdf@[cdf@.len() - 1] > draw);
        assert(index < cdf@.len());
        assert(cdf@[0] == 0);
        assert(index >= 1);
        assert(cdf@[index as int - 1] <= draw < cdf@[index as int]);
    }
    // interpolate: the cumulative width of the interval is its time width
    // times its intensity, so dividing the offset by the intensity lands in
    // the time interval
    let offset = draw - cdf[index - 1];
    let within = offset / intensity[index];
    proof {
        let dw = depths@[index as int] - depths@[index as int - 1];
        let itv = intensity@[index as int] as int;
        assert(c[index as int] - c[index - 1] == dw * itv);
        assert(itv > 0) by (nonlinear_arith)
            requires
                dw * itv > 0,
                dw >= 0,
        ;
        assert(offset < dw * itv);
        lemma_div_below(offset as int, itv, dw);
    }
    let time = depths[index - 1] + (within as u64);
    proof {
        assert(0 <= draw < cdf@.last() && cdf@[index as int - 1] <= draw < cdf@[index as int]
            && time == interp_time(
            depths@[index as int - 1],
            draw as int,
            cdf@[index as int - 1] as int,
            intensity@[index as int] as int,
        ));
    }
    (time, index)
}

/// The per-member weights of one interval: each member's transfer rate, a
/// member outside the rate table weighing nothing.
pub open spec fn spec_weights(members: Seq<usize>, rates: Seq<u64>) -> Seq<u64> {
    Seq::new(
        members.len(),
        |k: int|
            if members[k] < rates.len() {
                rates[members[k] as int]
            } else {
                0u64
            },
    )
}

/// Builds the weighted donor distribution of one interval; `None` when the
/// interval has no members, all their rates are zero, or the rates' total
/// leaves the machine range.
pub fn build_weighted_index(members: &Vec<usize>, transfer_rates: &Vec<u64>) -> (r: Option<
    WeightedU64,
>)
    requires
        members@.len() <= u64::MAX,
    ensures
        r is Some <==> (members@.len() > 0 && (exists|k: int|
            0 <= k < members@.len() && spec_weights(members@, transfer_rates@)[k] > 0)
            && crate::rng::sum_weights(spec_weights(members@, transfer_rates@)) <= u64::MAX),
        r matches Some(w) ==> weights_of(w) == spec_weights(members@, transfer_rates@),
{
    let mut weights: Vec<u64> = Vec::new();
    let mut total: u128 = 0;
    let mut k: usize = 0;
    while k < members.len()
        invariant
            k <= members@.len(),
            members@.len() <= u64::MAX,
            weights@.len() == k,
            forall|q: int| 0 <= q < k ==> weights@[q] == spec_weights(
                members@,
                transfer_rates@,
            )[q],
            total == crate::rng::sum_weights(weights@),
            total <= k * 0xFFFF_FFFF_FFFF_FFFF,
        decreases members@.len() - k,
    {
        let ghost before = weights@;
        let m = members[k];
        let w = if m < transfer_rates.len() {
            transfer_rates[m]
        } else {
            0
        };
        proof {
            assert((k as int) * 0xFFFF_FFFF_FFFF_FFFF + 0xFFFF_FFFF_FFFF_FFFF == (k + 1)
                * 0xFFFF_FFFF_FFFF_FFFF) by (nonlinear_arith);
            assert((k + 1) * 0xFFFF_FFFF_FFFF_FFFF <= (u64::MAX as int)
                * 0xFFFF_FFFF_FFFF_FFFF) by (nonlinear_arith)
                requires
                    k + 1 <= u64::MAX as int,
            ;
        }
        weights.push(w);
        total = total + w as u128;
        proof {
            assert(weights@.drop_last() =~= before);
        }
        k = k + 1;
    }
    proof {
        assert(weights@ =~= spec_weights(members@, transfer_rates@));
    }
    if total > 0xFFFF_FFFF_FFFF_FFFF {
        return None;
    }
    weighted_index_new(&weights)
}

/// Draws a donor (by weight) and a distinct recipient (uniformly) from one
/// interval's members; fewer than two members give no pair.
pub fn random_pair_with_weights(
    contemporaneous_species: &Vec<usize>,
    weighted: &WeightedU64,
    rng: &mut rand::rngs::StdRng,
) -> (r: Option<(usize, usize)>)
    requires
        weights_of(*weighted).len() == contemporaneous_species@.len(),
        strictly_increasing_idx(contemporaneous_species@),
    ensures
        (match r {
            None => contemporaneous_species@.len() < 2,
            Some((d, v)) => contemporaneous_species@.len() >= 2
                && contemporaneous_species@.contains(d) && contemporaneous_species@.contains(v) && d
                != v,
        }),
{
    let n = contemporaneous_species.len();
    if n < 2 {
        return None;
    }
    let donor_idx = weighted_sample(weighted, rng);
    let rand_idx = gen_range_usize(rng, n - 1);
    let receiver_idx = if rand_idx >= donor_idx {
        rand_idx + 1
    } else {
        rand_idx
    };
    let donor = contemporaneous_species[donor_idx];
    let receiver = contemporaneous_species[receiver_idx];
    proof {
        assert(contemporaneous_species@[donor_idx as int] == donor);
        assert(contemporaneous_species@[receiver_idx as int] == receiver);
        assert(contemporaneous_species@.contains(donor));
        assert(contemporaneous_species@.contains(receiver));
    }
    Some((donor, receiver))
}

/// The times of a transfer list never decrease.
pub open spec fn transfers_sorted(trs: Seq<(usize, usize, u64)>) -> bool {
    forall|a: int, b: int| #![trigger trs[a], trs[b]] 0 <= a < b < trs.len() ==> trs[a].2
        <= trs[b].2
}

/// A transfer names two nodes alive on one common timeline interval, with
/// its time inside that interval.
pub open spec fn transfer_on_interval(
    contemporaneity: Seq<Vec<usize>>,
    depths: Seq<u64>,
    tr: (usize, usize, u64),
) -> bool {
    exists|j: int|
        1 <= j < contemporaneity.len() && j < depths.len() && (#[trigger] contemporaneity[j])@.contains(
            tr.0,
        ) && contemporaneity[j]@.contains(tr.1) && depths[j - 1] <= tr.2 < depths[j]
}

/// Draws up to `n_transfers` dated transfers: each names a donor and a
/// distinct recipient alive on the drawn interval, refuses any pair the
/// regraft preconditions refuse — in particular one member being the
/// other's ancestor — and the result comes sorted by time.  Draws landing
/// on intervals with fewer than two live nodes produce nothing.
#[verifier::rlimit(100)]
#[verifier::spinoff_prover]
pub fn generate_transfers(
    n_transfers: usize,
    flat_tree: &FlatTree,
    contemporaneity: &Vec<Vec<usize>>,
    weighted_indices: &Vec<Option<WeightedU64>>,
    cdf: &Vec<u128>,
    depths: &Vec<u64>,
    intensity: &Vec<u128>,
    rng: &mut rand::rngs::StdRng,
) -> (r: Vec<(usize, usize, u64)>)
    requires
        wf(*flat_tree),
        cdf_matches(cdf@, depths@, intensity@),
        cdf@.last() > 0,
        contemporaneity@.len() == cdf@.len(),
        weighted_indices@.len() == cdf@.len(),
        forall|j: int| 0 <= j < contemporaneity@.len() ==> strictly_increasing_idx(
            (#[trigger] contemporaneity@[j])@,
        ),
        forall|j: int|
            0 <= j < weighted_indices@.len() ==> ((#[trigger] weighted_indices@[j]) matches Some(w)
                ==> weights_of(w).len() == contemporaneity@[j]@.len()),
    ensures
        r@.len() <= n_transfers,
        transfers_sorted(r@),
        forall|k: int| 0 <= k < r@.len() ==> can_spr(
            *flat_tree,
            (#[trigger] r@[k]).0 as int,
            r@[k].1 as int,
        ) && !crate::tree::is_ancestor_of(flat_tree.nodes@, r@[k].0 as int, r@[k].1 as int)
            && transfer_on_interval(contemporaneity@, depths@, r@[k]),
{
    let mut out: Vec<(usize, usize, u64)> = Vec::new();
    let mut drawn: usize = 0;
    while drawn < n_transfers
        invariant
            wf(*flat_tree),
            cdf_matches(cdf@, depths@, intensity@),
            cdf@.last() > 0,
            contemporaneity@.len() == cdf@.len(),
            weighted_indices@.len() == cdf@.len(),
            forall|j: int| 0 <= j < contemporaneity@.len() ==> strictly_increasing_idx(
                (#[trigger] contemporaneity@[j])@,
            ),
            forall|j: int|
                0 <= j < weighted_indices@.len() ==> ((#[trigger] weighted_indices@[j]) matches Some(
                    w,
                ) ==> weights_of(w).len() == contemporaneity@[j]@.len()),
            drawn <= n_transfers,
            out@.len() <= drawn,
            transfers_sorted(out@),
            forall|k: int| 0 <= k < out@.len() ==> can_spr(
                *flat_tree,
                (#[trigger] out@[k]).0 as int,
                out@[k].1 as int,
            ) && !crate::tree::is_ancestor_of(flat_tree.nodes@, out@[k].0 as int, out@[k].1 as int)
                && transfer_on_interval(contemporaneity@, depths@, out@[k]),
        decreases n_transfers - drawn,
    {
        let (time, index) = choose_from_cdf(cdf, depths, intensity, rng);
        match &weighted_indices[index] {
            Some(w) => {
                let pair = random_pair_with_weights(&contemporaneity[index], w, rng);
                match pair {
                    Some((donor, receiver)) => {
                        if transfer_allowed(flat_tree, donor, receiver) {
                            let ghost before = out@;
                            // keep the list ordered by time as it grows
                            let mut pos: usize = 0;
                            while pos < out.len() && out[pos].2 <= time
                                invariant
                                    pos <= out@.len(),
                                    out@ == before,
                                    transfers_sorted(out@),
                                    forall|q: int| 0 <= q < pos ==> (#[trigger] out@[q]).2 <= time,
                                decreases out@.len() - pos,
                            {
                                pos = pos + 1;
                            }
                            out.insert(pos, (donor, receiver, time));
                            proof {
                                assert forall|a: int, b: int|
                                    #![trigger out@[a], out@[b]]
                                    0 <= a < b < out@.len() implies out@[a].2 <= out@[b].2 by {
                                    if a < pos && b < pos {
                                    } else if a >= pos + 1 && b >= pos + 1 {
                                        assert(out@[a] == before[a - 1]);
                                        assert(out@[b] == before[b - 1]);
                                    } else if b == pos {
                                        assert(out@[a] == before[a]);
                                    } else if a == pos {
                                        assert(out@[b] == before[b - 1]);
                                        assert(before[b - 1].2 > time);
                                    } else {
                                        assert(out@[a] == before[a]);
                                        assert(out@[b] == before[b - 1]);
                                    }
                                }
                                assert(transfer_on_interval(
                                    contemporaneity@,
                                    depths@,
                                    (donor, receiver, time),
                                )) by {
                                    assert(contemporaneity@[index as int]@.contains(donor)
                                        && contemporaneity@[index as int]@.contains(receiver));
                                }
                                assert forall|k: int| 0 <= k < out@.len() implies can_spr(
                                    *flat_tree,
                                    (#[trigger] out@[k]).0 as int,
                                    out@[k].1 as int,
                                ) && !crate::tree::is_ancestor_of(
                                    flat_tree.nodes@,
                                    out@[k].0 as int,
                                    out@[k].1 as int,
                                ) && transfer_on_interval(
                                    contemporaneity@,
                                    depths@,
                                    out@[k],
                                ) by {
                                    if k < pos {
                                        assert(out@[k] == before[k]);
                                    } else if k > pos {
                                        assert(out@[k] == before[k - 1]);
                                    } else {
                                        assert(out@[k] == (donor, receiver, time));
                                    }
                                }
                            }
                        }
                    },
                    None => {},
                }
            },
            None => {},
        }
        drawn = drawn + 1;
    }
    out
}

/// Whether the dated regraft of `recipient`'s subtree into `donor`'s edge is
/// admissible on this tree: the full precondition of [`crate::surgery::spr`].
pub fn transfer_allowed(flat_tree: &FlatTree, donor: usize, recipient: usize) -> (r: bool)
    requires
        wf(*flat_tree),
    ensures
        r == (donor < flat_tree.nodes@.len() && recipient < flat_tree.nodes@.len() && can_spr(
            *flat_tree,
            donor as int,
            recipient as int,
        ) && !crate::tree::is_ancestor_of(flat_tree.nodes@, donor as int, recipient as int)),
{
    let n = flat_tree.nodes.len();
    if donor >= n || recipient >= n {
        return false;
    }
    if donor == recipient {
        return false;
    }
    if flat_tree.nodes[donor].parent.is_none() {
        return false;
    }
    if flat_tree.nodes[recipient].parent.is_none() {
        return false;
    }
    let pr = flat_tree.nodes[recipient].parent.unwrap();
    if pr == donor {
        return false;
    }
    if flat_tree.is_ancestor(recipient, donor) {
        return false;
    }
    if flat_tree.is_ancestor(donor, recipient) {
        return false;
    }
    proof {
        assert(crate::tree::links_ok_at(flat_tree.nodes@, recipient as int));
    }
    if flat_tree.nodes[pr].parent.is_none() && pr != flat_tree.root {
        return false;
    }
    true
}

/// The transfer table as text: a header, then one `donor,recipient,time`
/// row per transfer, times to six decimal places.
pub open spec fn spec_transfers_csv(
    nodes: Seq<crate::tree::FlatNode>,
    trs: Seq<(usize, usize, u64)>,
) -> Seq<char>
    decreases trs.len(),
{
    if trs.len() == 0 {
        "Donor,Recipient,Depth\n"@
    } else {
        spec_transfers_csv(nodes, trs.drop_last()) + nodes[trs.last().0 as int].name@ + ","@
            + nodes[trs.last().1 as int].name@ + ","@ + spec_format_time(trs.last().2) + "\n"@
    }
}

/// Renders the transfer table.
pub fn make_transfers_csv(flat_tree: &FlatTree, transfers: &Vec<(usize, usize, u64)>) -> (r: String)
    requires
        forall|k: int| 0 <= k < transfers@.len() ==> (#[trigger] transfers@[k]).0
            < flat_tree.nodes@.len() && transfers@[k].1 < flat_tree.nodes@.len(),
    ensures
        r@ == spec_transfers_csv(flat_tree.nodes@, transfers@),
{
    let mut out = String::from_str("Donor,Recipient,Depth\n");
    let mut k: usize = 0;
    while k < transfers.len()
        invariant
            k <= transfers@.len(),
            forall|q: int| 0 <= q < transfers@.len() ==> (#[trigger] transfers@[q]).0
                < flat_tree.nodes@.len() && transfers@[q].1 < flat_tree.nodes@.len(),
            out@ == spec_transfers_csv(flat_tree.nodes@, transfers@.subrange(0, k as int)),
        decreases transfers@.len() - k,
    {
        let (d, v, t) = transfers[k];
        out.append(flat_tree.nodes[d].name.as_str());
        out.append(",");
        out.append(flat_tree.nodes[v].name.as_str());
        out.append(",");
        let ts = crate::newick::format_time(t);
        out.append(ts.as_str());
        out.append("\n");
        proof {
            assert(transfers@.subrange(0, k + 1).drop_last() =~= transfers@.subrange(0, k as int));
            assert(transfers@.subrange(0, k + 1).last() == transfers@[k as int]);
        }
        k = k + 1;
    }
    proof {
        assert(transfers@.subrange(0, transfers@.len() as int) =~= transfers@);
    }
    out
}

/// A value below `w * y` divided by `y` lies below `w`.
proof fn lemma_div_below(x: int, y: int, w: int)
    requires
        y > 0,
        0 <= x,
        x < w * y,
    ensures
        0 <= x / y < w,
{
    vstd::arithmetic::div_mod::lemma_fundamental_div_mod(x, y);
    vstd::arithmetic::div_mod::lemma_mod_bound(x, y);
    assert(x / y >= 0) by (nonlinear_arith)
        requires
            x >= 0,
            y > 0,
    ;
    if x / y >= w {
        assert(x / y * y >= w * y) by (nonlinear_arith)
            requires
                x / y >= w,
                y > 0,
        ;
        assert(y * (x / y) == x / y * y) by (nonlinear_arith);
        assert(x >= x / y * y);
        assert(false);
    }
}

} // verus!
