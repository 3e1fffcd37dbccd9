//! The multi-candidate classifier: decides which (if any) of the candidate
//! byte strings the input window begins with, in one pass over the
//! comparison table.
//!
//! The algorithm mirrors the vector-register formulation lane by lane: the
//! window's first bytes are replicated into every candidate's comparison
//! slots through the shuffle map, compared byte-wise against the comparison
//! buffer into a bit mask, and then the carry-propagation trick turns "every
//! byte of a candidate matched" into a single bit at the candidate's tail
//! offset: clear the tail bits, add the head bits (carries ripple through a
//! candidate's all-ones run and land exactly on its tail), then re-AND with
//! the comparison mask and the tail bits.

use vstd::prelude::*;

use crate::bits::bit64;
use crate::bits::lemma_and3_bit;
use crate::bits::lemma_andnot_bit;
use crate::bits::lemma_bits_give_run;
use crate::bits::lemma_high_bits_clear;
use crate::bits::lemma_or_fresh_bit;
use crate::bits::lemma_or_sets_bit;
use crate::bits::lemma_region_carry;
use crate::bits::lemma_run_gives_bits;
use crate::bits::lemma_shift_mono;
use crate::bits::lemma_single_bit_in_run;
use crate::bits::low_bits;
use crate::bits::sub_mask;
use crate::candidates::TABLE_CAPACITY;
use crate::candidates::WINDOW_SIZE;
use crate::candidates::cand_matches;
use crate::candidates::candidates_ok;
use crate::candidates::is_tail;
use crate::candidates::lemma_count_le_total;
use crate::candidates::lemma_offset_step;
use crate::candidates::lemma_position_in_region;
use crate::candidates::lemma_region_bounds;
use crate::candidates::lemma_regions_ordered;
use crate::candidates::lemma_total_len_nonneg;
use crate::candidates::offset_of;
use crate::candidates::tail_of;
use crate::candidates::total_len;
use crate::masks::Masks;
use crate::masks::NO_CANDIDATE;
use crate::masks::region_ok;
use crate::outcome::MatchError;
use crate::outcome::MatchOutcome;

verus! {

/// Bit `p` (an index into the table lanes) of mask `x`.
pub open spec fn cbit(x: u64, p: int) -> bool {
    bit64(x, p as u64)
}

/// Lane `p` of the table compares equal: the window byte selected by the
/// shuffle map equals the comparison buffer byte.
pub open spec fn lane_eq(m: Masks, w: Seq<u8>, p: int) -> bool {
    w[m.shuf_mask@[p] as int] == m.cmp@[p]
}

/// `cb` is the lane-compare bit mask of window `w` against the tables.
pub open spec fn cmp_bits_ok(m: Masks, w: Seq<u8>, cb: u64) -> bool {
    forall|p: int| 0 <= p < TABLE_CAPACITY ==> (cbit(cb, p) == #[trigger] lane_eq(m, w, p))
}

/// The compare mask with every tail bit cleared.
pub open spec fn cleared(m: Masks, cb: u64) -> u64 {
    cb & !(m.high_mask as u64)
}

/// The cleared mask plus the head bits: carries ripple through each
/// candidate's run.
pub open spec fn carried(m: Masks, cb: u64) -> u64 {
    (cleared(m, cb) + (m.low_mask as u64)) as u64
}

/// The final result mask: one bit per fully matched candidate, at its tail.
pub open spec fn result_mask(m: Masks, cb: u64) -> u64 {
    carried(m, cb) & cb & (m.high_mask as u64)
}

/// Each candidate's tail bit of `res` says exactly whether that candidate
/// matches the window.
pub open spec fn tails_characterized(cs: Seq<Seq<u8>>, w: Seq<u8>, res: u64) -> bool {
    forall|k: int|
        0 <= k < cs.len() ==> (cbit(res, tail_of(cs, k)) == #[trigger] cand_matches(cs, k, w))
}

/// What `classify` promises, for any conforming classifier strategy: too few
/// bytes give `Incomplete`; otherwise the lowest-id matching candidate is
/// reported with its exact byte length consumed, and `NoMatch` comes exactly
/// when no candidate matches.
pub open spec fn classify_spec_ok(cs: Seq<Seq<u8>>, w: Seq<u8>, r: MatchOutcome<usize>) -> bool {
    match r {
        MatchOutcome::Done { consumed, value } => {
            &&& w.len() >= WINDOW_SIZE
            &&& 0 <= value < cs.len()
            &&& cand_matches(cs, value as int, w)
            &&& forall|i: int| 0 <= i < value ==> !cand_matches(cs, i, w)
            &&& consumed == cs[value as int].len()
        },
        MatchOutcome::Error { kind } => {
            &&& kind == MatchError::NoMatch
            &&& w.len() >= WINDOW_SIZE
            &&& forall|i: int| 0 <= i < cs.len() ==> !cand_matches(cs, i, w)
        },
        MatchOutcome::Incomplete { needed } => {
            &&& w.len() < WINDOW_SIZE
            &&& needed is None
        },
    }
}

/// Inside candidate `k`'s region, a compare bit is set exactly when the
/// corresponding window byte equals the candidate byte.
proof fn lemma_region_lane(m: Masks, w: Seq<u8>, cb: u64, k: int, p: int)
    requires
        m.wf(),
        w.len() >= WINDOW_SIZE,
        cmp_bits_ok(m, w, cb),
        0 <= k < m.cands@.len(),
        offset_of(m.cands@, k) <= p <= tail_of(m.cands@, k),
    ensures
        cbit(cb, p) == (w[p - offset_of(m.cands@, k)] == m.cands@[k][p - offset_of(m.cands@, k)]),
{
    let cs = m.cands@;
    lemma_region_bounds(cs, k);
    assert(region_ok(m.cmp@, m.shuf_mask@, m.ids@, m.high_mask as u64, m.low_mask as u64, cs, k));
    assert(m.cmp@[p] == cs[k][p - offset_of(cs, k)]);
    assert(lane_eq(m, w, p) == (w[p - offset_of(cs, k)] == cs[k][p - offset_of(cs, k)]));
}

/// The carry chain, region by region: after processing the first `i`
/// candidates, no carry escapes into the rest of the mask, and each
/// processed candidate's tail bit of the result mask says exactly whether
/// that candidate matches.
proof fn lemma_carry_chain(m: Masks, w: Seq<u8>, cb: u64, i: int)
    requires
        m.wf(),
        w.len() >= WINDOW_SIZE,
        cb < 0x1_0000_0000,
        cmp_bits_ok(m, w, cb),
        0 <= i <= m.cands@.len(),
    ensures
        (cleared(m, cb) & low_bits(offset_of(m.cands@, i) as u64)) + ((m.low_mask as u64)
            & low_bits(offset_of(m.cands@, i) as u64)) < (1u64 << (offset_of(m.cands@, i) as u64)),
        forall|k: int|
            0 <= k < i ==> (cbit(result_mask(m, cb), tail_of(m.cands@, k))
                == #[trigger] cand_matches(m.cands@, k, w)),
    decreases i,
{
    let cs = m.cands@;
    let mc = cleared(m, cb);
    let low = m.low_mask as u64;
    let high = m.high_mask as u64;
    let s = carried(m, cb);
    let res = result_mask(m, cb);
    if i == 0 {
        assert(cs.subrange(0, 0).len() == 0);
        assert(offset_of(cs, 0) == 0);
        assert((mc & low_bits(0u64)) + (low & low_bits(0u64)) < (1u64 << 0u64)) by (bit_vector);
    } else {
        lemma_carry_chain(m, w, cb, i - 1);
        let k = i - 1;
        let lo = offset_of(cs, k);
        let hi = tail_of(cs, k);
        let len = cs[k].len() as int;
        lemma_region_bounds(cs, k);
        lemma_offset_step(cs, k);
        assert(0 <= lo <= hi < total_len(cs) <= TABLE_CAPACITY);
        assert(region_ok(m.cmp@, m.shuf_mask@, m.ids@, high, low, cs, k));
        // the tail bit of the region is set in the tail mask, so it is clear
        // in the cleared compare mask
        lemma_single_bit_in_run(high, lo as u64, hi as u64, hi as u64, hi as u64);
        lemma_andnot_bit(cb, high, hi as u64);
        assert(cb & !high < 0x1_0000_0000) by (bit_vector)
            requires
                cb < 0x1_0000_0000,
        ;
        lemma_region_carry(mc, low, lo as u64, hi as u64);
        assert(offset_of(cs, i) == hi + 1);
        // bit `hi` of the sum is set iff the whole run below the tail is set
        // in the cleared mask; relate that to the raw compare bits and then
        // to the window bytes
        lemma_and3_bit(s, cb, high, hi as u64);
        if cand_matches(cs, k, w) {
            assert forall|pu: u64| lo as u64 <= pu < hi as u64 implies #[trigger] bit64(mc, pu) by {
                let p = pu as int;
                assert(p as u64 == pu);
                lemma_region_lane(m, w, cb, k, p);
                assert(w[p - lo] == cs[k][p - lo]);
                lemma_single_bit_in_run(high, lo as u64, hi as u64, hi as u64, pu);
                lemma_andnot_bit(cb, high, pu);
            }
            lemma_bits_give_run(mc, lo as u64, hi as u64);
            lemma_region_lane(m, w, cb, k, hi);
            assert(w[hi - lo] == cs[k][hi - lo]);
            assert(cbit(cb, hi));
            assert(cbit(res, hi));
        } else {
            // some byte of the candidate differs; its lane bit is clear
            let bad = choose|j: int| 0 <= j < len && w[j] != cs[k][j];
            assert(0 <= bad < len && w[bad] != cs[k][bad]);
            let p = lo + bad;
            lemma_region_lane(m, w, cb, k, p);
            assert(!cbit(cb, p));
            if p == hi {
                assert(!cbit(res, hi));
            } else {
                lemma_single_bit_in_run(high, lo as u64, hi as u64, hi as u64, p as u64);
                lemma_andnot_bit(cb, high, p as u64);
                assert(!bit64(mc, p as u64));
                if mc & sub_mask(lo as u64, hi as u64) == sub_mask(lo as u64, hi as u64) {
                    lemma_run_gives_bits(mc, lo as u64, hi as u64, p as u64);
                    assert(false);
                }
                assert(!bit64(s, hi as u64));
                assert(!cbit(res, hi));
            }
        }
        assert(cbit(res, tail_of(cs, k)) == cand_matches(cs, k, w));
    }
}

/// A set bit of the tail mask marks some candidate's tail offset.
proof fn lemma_high_bit_is_tail(m: Masks, p: int)
    requires
        m.wf(),
        0 <= p < TABLE_CAPACITY,
        cbit(m.high_mask as u64, p),
    ensures
        is_tail(m.cands@, p),
{
    let cs = m.cands@;
    let high = m.high_mask as u64;
    lemma_total_len_nonneg(cs);
    if p >= total_len(cs) {
        lemma_high_bits_clear(high, total_len(cs) as u64, p as u64);
        assert(false);
    } else {
        lemma_position_in_region(cs, p);
        let k = choose|k: int|
            0 <= k < cs.len() && offset_of(cs, k) <= p < offset_of(cs, k) + (#[trigger] cs[k]).len();
        lemma_region_bounds(cs, k);
        assert(region_ok(m.cmp@, m.shuf_mask@, m.ids@, high, m.low_mask as u64, cs, k));
        lemma_single_bit_in_run(
            high,
            offset_of(cs, k) as u64,
            tail_of(cs, k) as u64,
            tail_of(cs, k) as u64,
            p as u64,
        );
        assert(p == tail_of(cs, k));
    }
}

/// Classifies the start of `window` against the prepared tables.
///
/// With fewer bytes than the window size available the classifier cannot
/// safely examine a full window and reports `Incomplete`. Otherwise it
/// returns the lowest-numbered candidate the window begins with, consuming
/// exactly that candidate's byte length, or `NoMatch` if the window begins
/// with none of them.
#[verifier::rlimit(8)]
pub fn classify(masks: &Masks, window: &[u8]) -> (r: MatchOutcome<usize>)
    requires
        masks.wf(),
    ensures
        classify_spec_ok(masks.cands@, window@, r),
{
    let ghost cs = masks.cands@;
    if window.len() < WINDOW_SIZE {
        return MatchOutcome::Incomplete { needed: None };
    }
    proof {
        assert(1u64 << 0u64 == 1) by (bit_vector);
    }
    let mut cb: u64 = 0;
    let mut j: usize = 0;
    while j < TABLE_CAPACITY
        invariant
            masks.wf(),
            cs == masks.cands@,
            window@.len() >= WINDOW_SIZE,
            0 <= j <= TABLE_CAPACITY,
            cb < (1u64 << (j as u64)),
            forall|p: int| 0 <= p < j ==> (cbit(cb, p) == #[trigger] lane_eq(*masks, window@, p)),
        decreases TABLE_CAPACITY - j,
    {
        let sh = masks.shuf_mask[j];
        proof {
            assert(masks.shuf_mask@[j as int] < WINDOW_SIZE);
        }
        let b = window[sh as usize];
        let matched = b == masks.cmp[j];
        let ghost old_cb = cb;
        if matched {
            cb = cb | (1u64 << (j as u64));
        }
        proof {
            if matched {
                lemma_or_fresh_bit(old_cb, j as u64, j as u64, j as u64);
            } else {
                lemma_shift_mono(j as u64, (j + 1) as u64);
            }
            assert forall|p: int| 0 <= p <= j implies (cbit(cb, p) == #[trigger] lane_eq(
                *masks,
                window@,
                p,
            )) by {
                if p < j {
                    assert(cbit(old_cb, p) == lane_eq(*masks, window@, p));
                    if matched {
                        lemma_or_sets_bit(old_cb, j as u64, p as u64);
                    }
                } else {
                    lemma_high_bits_clear(old_cb, j as u64, j as u64);
                    if matched {
                        lemma_or_sets_bit(old_cb, j as u64, j as u64);
                    }
                    assert(lane_eq(*masks, window@, p) == matched);
                }
            }
        }
        j = j + 1;
    }
    proof {
        assert(1u64 << 32u64 == 0x1_0000_0000) by (bit_vector);
        assert(cmp_bits_ok(*masks, window@, cb));
    }
    let high: u64 = masks.high_mask as u64;
    let low: u64 = masks.low_mask as u64;
    let m = cb & !high;
    proof {
        assert(cb & !high < 0x1_0000_0000) by (bit_vector)
            requires
                cb < 0x1_0000_0000,
        ;
    }
    let s = m + low;
    let res = s & cb & high;
    proof {
        assert(s == carried(*masks, cb));
        assert(res == result_mask(*masks, cb));
        lemma_carry_chain(*masks, window@, cb, cs.len() as int);
        lemma_count_le_total(cs);
    }
    let mut t: usize = 0;
    while t < TABLE_CAPACITY
        invariant
            masks.wf(),
            cs == masks.cands@,
            window@.len() >= WINDOW_SIZE,
            0 <= t <= TABLE_CAPACITY,
            res == result_mask(*masks, cb),
            tails_characterized(cs, window@, res),
            forall|p: int| 0 <= p < t ==> !#[trigger] cbit(res, p),
        decreases TABLE_CAPACITY - t,
    {
        if (res >> (t as u64)) & 1 == 1 {
            proof {
                assert(cbit(res, t as int));
                lemma_and3_bit(carried(*masks, cb), cb, masks.high_mask as u64, t as u64);
                lemma_high_bit_is_tail(*masks, t as int);
                let k = choose|k: int| 0 <= k < cs.len() && t as int == tail_of(cs, k);
                lemma_region_bounds(cs, k);
                assert(region_ok(
                    masks.cmp@,
                    masks.shuf_mask@,
                    masks.ids@,
                    masks.high_mask as u64,
                    masks.low_mask as u64,
                    cs,
                    k,
                ));
                lemma_count_le_total(cs);
                assert(masks.ids@[t as int] as int == k);
                assert(masks.cmp@[t as int] == cs[k][t as int - offset_of(cs, k)]);
                assert(masks.shuf_mask@[t as int] as int == cs[k].len() - 1);
                assert(cand_matches(cs, k, window@));
                assert forall|i: int| 0 <= i < k implies !cand_matches(cs, i, window@) by {
                    lemma_regions_ordered(cs, i, k);
                    lemma_region_bounds(cs, i);
                    assert(tail_of(cs, i) < t as int);
                    assert(!cbit(res, tail_of(cs, i)));
                }
            }
            let idx = masks.ids[t];
            if idx == NO_CANDIDATE {
                // the tables map every result bit to a real candidate; this
                // guard only defends against tables built by other means
                return MatchOutcome::Error { kind: MatchError::NoMatch };
            }
            let consumed = masks.shuf_mask[t] as usize + 1;
            return MatchOutcome::Done { consumed, value: idx as usize };
        }
        t = t + 1;
    }
    proof {
        assert forall|k: int| 0 <= k < cs.len() implies !cand_matches(cs, k, window@) by {
            lemma_region_bounds(cs, k);
            assert(0 <= tail_of(cs, k) < TABLE_CAPACITY);
            assert(!cbit(res, tail_of(cs, k)));
        }
    }
    MatchOutcome::Error { kind: MatchError::NoMatch }
}

/// The naive reference classifier: linear byte comparison of every
/// candidate against the window, in candidate order.
///
/// Its contract is the same as `classify`'s, which is the differential
/// property: both strategies return equal outcomes on equal inputs (see
/// `lemma_classifier_strategies_agree`).
pub fn classify_reference(set: &crate::candidates::CandidateSet, window: &[u8]) -> (r: MatchOutcome<
    usize,
>)
    ensures
        classify_spec_ok(set@, window@, r),
{
    let ghost cs = set@;
    proof {
        use_type_invariant(set);
    }
    if window.len() < WINDOW_SIZE {
        return MatchOutcome::Incomplete { needed: None };
    }
    let k_total = set.len();
    let mut i: usize = 0;
    while i < k_total
        invariant
            cs == set@,
            candidates_ok(cs),
            k_total == cs.len(),
            window@.len() >= WINDOW_SIZE,
            0 <= i <= k_total,
            forall|k: int| 0 <= k < i ==> !cand_matches(cs, k, window@),
        decreases k_total - i,
    {
        let c = set.get(i);
        let clen = c.len();
        let mut j: usize = 0;
        let mut all_eq = true;
        while j < clen
            invariant
                0 <= j <= clen,
                0 <= (i as int) < cs.len(),
                clen == cs[i as int].len(),
                clen <= WINDOW_SIZE,
                c@ == cs[i as int],
                window@.len() >= WINDOW_SIZE,
                all_eq == (forall|q: int| 0 <= q < j ==> window@[q] == cs[i as int][q]),
            decreases clen - j,
        {
            if window[j] != c[j] {
                all_eq = false;
                proof {
                    assert(window@[j as int] != cs[i as int][j as int]);
                }
                j = clen;
            } else {
                j = j + 1;
            }
        }
        if all_eq {
            return MatchOutcome::Done { consumed: clen, value: i };
        }
        proof {
            assert(!cand_matches(cs, i as int, window@));
        }
        i = i + 1;
    }
    MatchOutcome::Error { kind: MatchError::NoMatch }
}

/// If the window begins with candidate `i`'s bytes and with no earlier
/// candidate's, every conforming classifier returns `Done` with id `i`,
/// consuming exactly candidate `i`'s byte length: the unconsumed remainder
/// starts immediately after candidate `i`'s bytes. (When an earlier
/// candidate also matches, insertion order decides instead.)
pub proof fn lemma_classify_finds_candidate(
    cs: Seq<Seq<u8>>,
    w: Seq<u8>,
    i: int,
    r: MatchOutcome<usize>,
)
    requires
        0 <= i < cs.len(),
        cs[i].len() <= usize::MAX,
        cand_matches(cs, i, w),
        forall|j: int| 0 <= j < i ==> !cand_matches(cs, j, w),
        w.len() >= WINDOW_SIZE,
        classify_spec_ok(cs, w, r),
    ensures
        r == (MatchOutcome::Done { consumed: cs[i].len() as usize, value: i as usize }),
{
    match r {
        MatchOutcome::Done { consumed, value } => {
            if (value as int) < i {
                assert(!cand_matches(cs, value as int, w));
                assert(false);
            }
            if i < (value as int) {
                assert(!cand_matches(cs, i, w));
                assert(false);
            }
            assert(value as int == i);
            assert(consumed == cs[i].len());
        },
        MatchOutcome::Error { .. } => {
            assert(!cand_matches(cs, i, w));
            assert(false);
        },
        MatchOutcome::Incomplete { .. } => {
            assert(false);
        },
    }
}

/// Differential law: any two classifier strategies that meet the contract
/// return equal outcomes on equal candidate sets and windows. In particular
/// `classify` and `classify_reference` always agree.
pub proof fn lemma_classifier_strategies_agree(
    cs: Seq<Seq<u8>>,
    w: Seq<u8>,
    r1: MatchOutcome<usize>,
    r2: MatchOutcome<usize>,
)
    requires
        classify_spec_ok(cs, w, r1),
        classify_spec_ok(cs, w, r2),
    ensures
        r1 == r2,
{
    match (r1, r2) {
        (
            MatchOutcome::Done { consumed: c1, value: v1 },
            MatchOutcome::Done { consumed: c2, value: v2 },
        ) => {
            if v1 < v2 {
                assert(!cand_matches(cs, v1 as int, w));
                assert(false);
            }
            if v2 < v1 {
                assert(!cand_matches(cs, v2 as int, w));
                assert(false);
            }
            assert(v1 == v2 && c1 == c2);
        },
        (MatchOutcome::Done { consumed: c1, value: v1 }, MatchOutcome::Error { .. }) => {
            assert(!cand_matches(cs, v1 as int, w));
            assert(false);
        },
        (MatchOutcome::Error { .. }, MatchOutcome::Done { consumed: c2, value: v2 }) => {
            assert(!cand_matches(cs, v2 as int, w));
            assert(false);
        },
        _ => {},
    }
}

} // verus!
