//! The mask builder: turns a candidate set into the static tables the
//! classifier needs. Each candidate is laid out contiguously after the
//! previous one; for a candidate occupying table offsets `off..off+len`:
//! its bytes go into the comparison buffer, the values `0..len` go into the
//! shuffle map (so the start of the input window can be replicated into the
//! candidate's comparison slots), bit `off+len-1` is set in the tail mask,
//! bit `off` is set in the head mask, and the id table maps the tail offset
//! back to the candidate id.

use vstd::prelude::*;

use crate::bits::lemma_or_fresh_bit;
use crate::bits::lemma_or_keeps_low;
use crate::bits::lemma_run_mask_bound;
use crate::bits::lemma_shift_mono;
use crate::bits::lemma_u32_roundtrip;
use crate::bits::run_mask;
use crate::candidates::CandidateSet;
use crate::candidates::TABLE_CAPACITY;
use crate::candidates::WINDOW_SIZE;
use crate::candidates::candidates_ok;
use crate::candidates::is_tail;
use crate::candidates::lemma_count_le_total;
use crate::candidates::lemma_offset_step;
use crate::candidates::lemma_region_bounds;
use crate::candidates::lemma_regions_ordered;
use crate::candidates::lemma_total_len_nonneg;
use crate::candidates::offset_of;
use crate::candidates::tail_of;
use crate::candidates::total_len;

verus! {

/// Value in the id table marking a table offset where no candidate ends.
pub const NO_CANDIDATE: u8 = 0xFF;

/// Candidate `k`'s region of the tables is laid out correctly: its bytes sit
/// in the comparison buffer at its offset, the shuffle map replicates the
/// window start over the region, each derived bit mask holds exactly one bit
/// of the region's bit run, and the id table maps the tail offset to `k`.
pub open spec fn region_ok(
    cmp: Seq<u8>,
    shuf: Seq<u8>,
    ids: Seq<u8>,
    high: u64,
    low: u64,
    cs: Seq<Seq<u8>>,
    k: int,
) -> bool {
    let off = offset_of(cs, k);
    let tail = tail_of(cs, k);
    &&& forall|p: int|
        off <= p <= tail ==> #[trigger] cmp[p] == cs[k][p - off] && shuf[p] as int == p - off
    &&& low & run_mask(off as u64, tail as u64) == (1u64 << (off as u64))
    &&& high & run_mask(off as u64, tail as u64) == (1u64 << (tail as u64))
    &&& ids[tail] as int == k
}

/// The first `n` candidates' regions are all laid out correctly.
pub open spec fn regions_ok(
    cmp: Seq<u8>,
    shuf: Seq<u8>,
    ids: Seq<u8>,
    high: u64,
    low: u64,
    cs: Seq<Seq<u8>>,
    n: int,
) -> bool {
    forall|k: int| 0 <= k < n ==> #[trigger] region_ok(cmp, shuf, ids, high, low, cs, k)
}

/// Full well-formedness of a table set for candidate sequence `cs`.
pub open spec fn tables_ok(
    cmp: Seq<u8>,
    shuf: Seq<u8>,
    ids: Seq<u8>,
    high: u64,
    low: u64,
    cs: Seq<Seq<u8>>,
) -> bool {
    &&& candidates_ok(cs)
    &&& cmp.len() == TABLE_CAPACITY
    &&& shuf.len() == TABLE_CAPACITY
    &&& ids.len() == TABLE_CAPACITY
    &&& regions_ok(cmp, shuf, ids, high, low, cs, cs.len() as int)
    &&& forall|p: int|
        total_len(cs) <= p < TABLE_CAPACITY ==> #[trigger] cmp[p] == 0 && shuf[p] == 0
    &&& forall|p: int|
        #![trigger ids[p]]
        0 <= p < TABLE_CAPACITY && !is_tail(cs, p) ==> ids[p] == NO_CANDIDATE
    &&& forall|p: int| 0 <= p < TABLE_CAPACITY ==> #[trigger] shuf[p] < WINDOW_SIZE
    &&& low < (1u64 << (total_len(cs) as u64))
    &&& high < (1u64 << (total_len(cs) as u64))
}

/// The classifier's static tables, derived once from a candidate set and
/// read-only thereafter.
pub struct Masks {
    /// Comparison buffer: each candidate's bytes at its offset, zero padded.
    pub cmp: Vec<u8>,
    /// Shuffle map: `0..len` over each candidate's region, zero padded.
    pub shuf_mask: Vec<u8>,
    /// Tail bits: one bit per candidate, at its last byte's offset.
    pub high_mask: u32,
    /// Head bits: one bit per candidate, at its first byte's offset.
    pub low_mask: u32,
    /// Maps a tail offset to the candidate id ending there; `NO_CANDIDATE`
    /// everywhere else.
    pub ids: Vec<u8>,
    /// The candidate sequence the tables were derived from.
    pub cands: Ghost<Seq<Seq<u8>>>,
}

impl Masks {
    /// The tables faithfully encode the candidate sequence.
    pub open spec fn wf(&self) -> bool {
        tables_ok(
            self.cmp@,
            self.shuf_mask@,
            self.ids@,
            self.high_mask as u64,
            self.low_mask as u64,
            self.cands@,
        )
    }
}

/// The classifier tables in dispatch-ready form: the same buffers as
/// `Masks`, plus each candidate's byte length indexed by candidate id. A
/// dispatcher consumes a length to advance past the candidate it matched.
pub struct MasksVec {
    /// Comparison buffer, as in `Masks`.
    pub cmp: Vec<u8>,
    /// Shuffle map, as in `Masks`.
    pub shuf_mask: Vec<u8>,
    /// Tail bits, as in `Masks`.
    pub high_mask: u32,
    /// Head bits, as in `Masks`.
    pub low_mask: u32,
    /// Id table, as in `Masks`.
    pub ids: Vec<u8>,
    /// Byte length of each candidate, indexed by candidate id.
    pub lens: Vec<u8>,
    /// The candidate sequence the tables were derived from.
    pub cands: Ghost<Seq<Seq<u8>>>,
}

impl MasksVec {
    /// The tables faithfully encode the candidate sequence, and the length
    /// table holds every candidate's byte length.
    pub open spec fn wf(&self) -> bool {
        &&& tables_ok(
            self.cmp@,
            self.shuf_mask@,
            self.ids@,
            self.high_mask as u64,
            self.low_mask as u64,
            self.cands@,
        )
        &&& self.lens@.len() == self.cands@.len()
        &&& forall|k: int|
            0 <= k < self.cands@.len() ==> #[trigger] self.lens@[k] as int
                == self.cands@[k].len()
    }

    /// Derives the dispatch-ready form from freshly built tables, reading
    /// each candidate's length off the shuffle map at the candidate's tail
    /// offset (the map holds `0..len` over the candidate's region, so the
    /// tail entry is `len - 1`).
    #[verifier::rlimit(8)]
    pub fn from(m: Masks) -> (r: MasksVec)
        requires
            m.wf(),
        ensures
            r.wf(),
            r.cands@ == m.cands@,
            r.cmp@ == m.cmp@,
            r.shuf_mask@ == m.shuf_mask@,
            r.ids@ == m.ids@,
            r.high_mask == m.high_mask,
            r.low_mask == m.low_mask,
    {
        let ghost cs = m.cands@;
        proof {
            lemma_count_le_total(cs);
            lemma_total_len_nonneg(cs);
        }
        let mut lens: Vec<u8> = Vec::new();
        let mut t: usize = 0;
        while t < TABLE_CAPACITY
            invariant
                m.wf(),
                cs == m.cands@,
                cs.len() <= total_len(cs),
                0 <= t <= TABLE_CAPACITY,
                lens@.len() <= cs.len(),
                forall|k: int| 0 <= k < lens@.len() ==> #[trigger] lens@[k] as int == cs[k].len(),
                lens@.len() < cs.len() ==> t as int <= tail_of(cs, lens@.len() as int),
                forall|k: int| 0 <= k < lens@.len() ==> #[trigger] tail_of(cs, k) < t,
            decreases TABLE_CAPACITY - t,
        {
            let id = m.ids[t];
            if id != NO_CANDIDATE {
                proof {
                    assert(is_tail(cs, t as int));
                    let k = choose|k: int| 0 <= k < cs.len() && t as int == tail_of(cs, k);
                    let j = lens@.len() as int;
                    lemma_region_bounds(cs, k);
                    if k < j {
                        assert(tail_of(cs, k) < t);
                        assert(false);
                    }
                    if k > j {
                        lemma_regions_ordered(cs, j, k);
                        lemma_region_bounds(cs, j);
                        assert(false);
                    }
                    assert(region_ok(
                        m.cmp@,
                        m.shuf_mask@,
                        m.ids@,
                        m.high_mask as u64,
                        m.low_mask as u64,
                        cs,
                        k,
                    ));
                    assert(m.cmp@[t as int] == cs[k][t as int - offset_of(cs, k)]);
                    assert(m.shuf_mask@[t as int] as int == cs[k].len() - 1);
                    assert(m.shuf_mask@[t as int] < WINDOW_SIZE);
                }
                let l = m.shuf_mask[t] + 1;
                lens.push(l);
                proof {
                    let j2 = lens@.len() as int;
                    if j2 < cs.len() {
                        lemma_offset_step(cs, j2 - 1);
                        lemma_region_bounds(cs, j2);
                    }
                }
            } else {
                proof {
                    let j = lens@.len() as int;
                    if j < cs.len() && t as int == tail_of(cs, j) {
                        assert(region_ok(
                            m.cmp@,
                            m.shuf_mask@,
                            m.ids@,
                            m.high_mask as u64,
                            m.low_mask as u64,
                            cs,
                            j,
                        ));
                        assert(m.ids@[t as int] as int == j);
                        assert(false);
                    }
                }
            }
            t = t + 1;
        }
        proof {
            // every tail offset lies inside the table, so the scan saw all
            // of them
            if lens@.len() < cs.len() {
                let j = lens@.len() as int;
                lemma_region_bounds(cs, j);
                assert(false);
            }
        }
        MasksVec {
            cmp: m.cmp,
            shuf_mask: m.shuf_mask,
            high_mask: m.high_mask,
            low_mask: m.low_mask,
            ids: m.ids,
            lens,
            cands: m.cands,
        }
    }
}

/// Builds the classifier tables from a validated candidate set.
///
/// Deterministic and pure: the resulting tables encode exactly the given
/// candidates, laid out back to back in insertion order.
#[verifier::rlimit(8)]
pub fn prepare(set: &CandidateSet) -> (m: Masks)
    ensures
        m.wf(),
        m.cands@ == set@,
{
    let ghost cs = set@;
    proof {
        use_type_invariant(set);
        lemma_count_le_total(cs);
        lemma_total_len_nonneg(cs);
    }
    let mut cmp: Vec<u8> = Vec::new();
    let mut shuf: Vec<u8> = Vec::new();
    let mut ids: Vec<u8> = Vec::new();
    let mut high: u64 = 0;
    let mut low: u64 = 0;
    proof {
        assert(1u64 << 0u64 == 1) by (bit_vector);
    }
    let k_total = set.len();
    let mut i: usize = 0;
    while i < k_total
        invariant
            cs == set@,
            candidates_ok(cs),
            cs.len() <= total_len(cs),
            k_total == cs.len(),
            0 <= i <= k_total,
            cmp@.len() == offset_of(cs, i as int),
            shuf@.len() == cmp@.len(),
            ids@.len() == cmp@.len(),
            regions_ok(cmp@, shuf@, ids@, high, low, cs, i as int),
            forall|p: int| 0 <= p < shuf@.len() ==> #[trigger] shuf@[p] < WINDOW_SIZE,
            forall|p: int|
                #![trigger ids@[p]]
                0 <= p < ids@.len() && ids@[p] != NO_CANDIDATE ==> is_tail(cs, p),
            low < (1u64 << (cmp@.len() as u64)),
            high < (1u64 << (cmp@.len() as u64)),
        decreases k_total - i,
    {
        proof {
            lemma_region_bounds(cs, i as int);
            lemma_offset_step(cs, i as int);
        }
        let c = set.get(i);
        let clen = c.len();
        let off = cmp.len();
        let ghost cmp0 = cmp@;
        let ghost shuf0 = shuf@;
        let ghost ids0 = ids@;
        let mut j: usize = 0;
        while j < clen
            invariant
                0 <= j <= clen,
                0 <= (i as int) < cs.len(),
                clen == cs[i as int].len(),
                c@ == cs[i as int],
                off == offset_of(cs, i as int),
                off + clen <= TABLE_CAPACITY,
                clen <= WINDOW_SIZE,
                i < 256,
                cmp@.len() == off + j,
                shuf@.len() == off + j,
                ids@.len() == off + j,
                cmp0.len() == off,
                shuf0.len() == off,
                ids0.len() == off,
                cmp@.subrange(0, off as int) == cmp0,
                shuf@.subrange(0, off as int) == shuf0,
                ids@.subrange(0, off as int) == ids0,
                forall|p: int|
                    off <= p < off + j ==> #[trigger] cmp@[p] == cs[i as int][p - off] && shuf@[p]
                        as int == p - off,
                forall|q: int|
                    off <= q < off + j ==> #[trigger] ids@[q] == (if q == off + clen - 1 {
                        i as u8
                    } else {
                        NO_CANDIDATE
                    }),
                forall|p: int| 0 <= p < shuf@.len() ==> #[trigger] shuf@[p] < WINDOW_SIZE,
            decreases clen - j,
        {
            cmp.push(c[j]);
            shuf.push(j as u8);
            if j + 1 == clen {
                ids.push(i as u8);
            } else {
                ids.push(NO_CANDIDATE);
            }
            proof {
                assert(cmp@.subrange(0, off as int) =~= cmp0);
                assert(shuf@.subrange(0, off as int) =~= shuf0);
                assert(ids@.subrange(0, off as int) =~= ids0);
                assert(cmp@[off + j as int] == cs[i as int][j as int]);
                assert(shuf@[off + j as int] == j as u8);
                assert(ids@[off + j as int] == (if off + j as int == off + clen - 1 {
                    i as u8
                } else {
                    NO_CANDIDATE
                }));
            }
            j = j + 1;
        }
        let tail = cmp.len() - 1;
        let ghost old_high = high;
        let ghost old_low = low;
        high = high | (1u64 << (tail as u64));
        low = low | (1u64 << (off as u64));
        proof {
            let offi = offset_of(cs, i as int);
            let taili = tail_of(cs, i as int);
            assert(taili == tail as int);
            assert(0 <= offi <= taili < TABLE_CAPACITY);
            // the fresh bits establish this region's mask facts
            lemma_or_fresh_bit(old_high, offi as u64, taili as u64, taili as u64);
            lemma_or_fresh_bit(old_low, offi as u64, taili as u64, offi as u64);
            lemma_shift_mono((offi + 1) as u64, (taili + 1) as u64);
            assert(low < (1u64 << ((taili + 1) as u64)));
            assert(high < (1u64 << ((taili + 1) as u64)));
            // earlier regions' facts survive: their table bytes were not
            // touched by the pushes, and their mask runs sit strictly below
            // the freshly set bits
            assert forall|k: int|
                0 <= k < i implies #[trigger] region_ok(cmp@, shuf@, ids@, high, low, cs, k) by {
                assert(region_ok(cmp0, shuf0, ids0, old_high, old_low, cs, k));
                lemma_regions_ordered(cs, k, i as int);
                lemma_region_bounds(cs, k);
                let offk = offset_of(cs, k);
                let tailk = tail_of(cs, k);
                assert forall|p2: int| offk <= p2 <= tailk implies #[trigger] cmp@[p2]
                    == cs[k][p2 - offk] && shuf@[p2] as int == p2 - offk by {
                    assert(0 <= p2 < off);
                    assert(cmp@.subrange(0, off as int)[p2] == cmp@[p2]);
                    assert(shuf@.subrange(0, off as int)[p2] == shuf@[p2]);
                    assert(cmp0[p2] == cs[k][p2 - offk] && shuf0[p2] as int == p2 - offk);
                }
                assert(0 <= tailk < off);
                assert(ids@.subrange(0, off as int)[tailk] == ids@[tailk]);
                assert(ids@[tailk] as int == k);
                lemma_run_mask_bound(offk as u64, tailk as u64);
                lemma_shift_mono((tailk + 1) as u64, offi as u64);
                lemma_shift_mono(offi as u64, taili as u64);
                assert(run_mask(offk as u64, tailk as u64) < (1u64 << (offi as u64)));
                assert(run_mask(offk as u64, tailk as u64) < (1u64 << (taili as u64)));
                lemma_or_keeps_low(old_high, taili as u64, run_mask(offk as u64, tailk as u64));
                lemma_or_keeps_low(old_low, offi as u64, run_mask(offk as u64, tailk as u64));
                assert(high == old_high | (1u64 << (taili as u64)));
                assert(low == old_low | (1u64 << (offi as u64)));
                assert(low & run_mask(offk as u64, tailk as u64) == (1u64 << (offk as u64)));
                assert(high & run_mask(offk as u64, tailk as u64) == (1u64 << (tailk as u64)));
                assert(ids@[tailk] as int == k);
                assert(region_ok(cmp@, shuf@, ids@, high, low, cs, k));
            }
            assert(ids@[taili] as int == i as int);
            assert forall|p2: int|
                #![trigger ids@[p2]]
                0 <= p2 < ids@.len() && ids@[p2] != NO_CANDIDATE implies is_tail(cs, p2) by {
                if p2 < off {
                    assert(ids@.subrange(0, off as int)[p2] == ids@[p2]);
                    assert(ids0[p2] != NO_CANDIDATE);
                } else {
                    assert(ids@[p2] == (if p2 == off + clen - 1 {
                        i as u8
                    } else {
                        NO_CANDIDATE
                    }));
                    assert(0 <= (i as int) && (i as int) < cs.len() && p2 == tail_of(
                        cs,
                        i as int,
                    ));
                }
            }
            assert forall|p2: int| offi <= p2 <= taili implies #[trigger] cmp@[p2] == cs[i as int][p2
                - offi] && shuf@[p2] as int == p2 - offi by {
                assert(cmp@[p2] == cs[i as int][p2 - offi] && shuf@[p2] as int == p2 - offi);
            }
            assert(region_ok(cmp@, shuf@, ids@, high, low, cs, i as int));
        }
        i = i + 1;
    }
    proof {
        assert(cs.subrange(0, cs.len() as int) =~= cs);
        assert(cmp@.len() == total_len(cs));
    }
    let built = cmp.len();
    let ghost cmp_b = cmp@;
    let ghost shuf_b = shuf@;
    let ghost ids_b = ids@;
    let mut p: usize = built;
    while p < TABLE_CAPACITY
        invariant
            built <= p <= TABLE_CAPACITY,
            cmp@.len() == p,
            shuf@.len() == p,
            ids@.len() == p,
            cmp_b.len() == built,
            shuf_b.len() == built,
            ids_b.len() == built,
            cmp@.subrange(0, built as int) == cmp_b,
            shuf@.subrange(0, built as int) == shuf_b,
            ids@.subrange(0, built as int) == ids_b,
            forall|q: int| built <= q < p ==> #[trigger] cmp@[q] == 0,
            forall|q: int| built <= q < p ==> #[trigger] shuf@[q] == 0,
            forall|q: int| built <= q < p ==> #[trigger] ids@[q] == NO_CANDIDATE,
        decreases TABLE_CAPACITY - p,
    {
        cmp.push(0);
        shuf.push(0);
        ids.push(NO_CANDIDATE);
        proof {
            assert(cmp@.subrange(0, built as int) =~= cmp_b);
            assert(shuf@.subrange(0, built as int) =~= shuf_b);
            assert(ids@.subrange(0, built as int) =~= ids_b);
        }
        p = p + 1;
    }
    let m = Masks {
        cmp,
        shuf_mask: shuf,
        high_mask: high as u32,
        low_mask: low as u32,
        ids,
        cands: Ghost(cs),
    };
    proof {
        assert(1u64 << 32u64 == 0x1_0000_0000) by (bit_vector);
        lemma_shift_mono(total_len(cs) as u64, 32);
        lemma_u32_roundtrip(high);
        lemma_u32_roundtrip(low);
        assert forall|q: int| 0 <= q < built implies m.cmp@[q] == cmp_b[q] && m.shuf_mask@[q]
            == shuf_b[q] && m.ids@[q] == ids_b[q] by {
            assert(m.cmp@.subrange(0, built as int)[q] == m.cmp@[q]);
            assert(m.shuf_mask@.subrange(0, built as int)[q] == m.shuf_mask@[q]);
            assert(m.ids@.subrange(0, built as int)[q] == m.ids@[q]);
        }
        assert forall|k: int| 0 <= k < cs.len() implies #[trigger] region_ok(
            m.cmp@,
            m.shuf_mask@,
            m.ids@,
            m.high_mask as u64,
            m.low_mask as u64,
            cs,
            k,
        ) by {
            assert(region_ok(cmp_b, shuf_b, ids_b, high, low, cs, k));
            lemma_region_bounds(cs, k);
            let offk = offset_of(cs, k);
            let tailk = tail_of(cs, k);
            assert forall|p2: int| offk <= p2 <= tailk implies #[trigger] m.cmp@[p2]
                == cs[k][p2 - offk] && m.shuf_mask@[p2] as int == p2 - offk by {
                assert(0 <= p2 < built);
                assert(cmp_b[p2] == cs[k][p2 - offk] && shuf_b[p2] as int == p2 - offk);
            }
            assert(0 <= tailk < built);
        }
        assert forall|p: int|
            #![trigger m.ids@[p]]
            0 <= p < TABLE_CAPACITY && m.ids@[p] != NO_CANDIDATE implies is_tail(cs, p) by {
            if p < built {
                assert(m.ids@[p] == ids_b[p]);
                assert(ids_b[p] != NO_CANDIDATE);
            } else {
                assert(m.ids@[p] == NO_CANDIDATE);
            }
        }
        assert forall|q: int| 0 <= q < TABLE_CAPACITY implies #[trigger] m.shuf_mask@[q]
            < WINDOW_SIZE by {
            if q < built {
                assert(m.shuf_mask@[q] == shuf_b[q]);
                assert(shuf_b[q] < WINDOW_SIZE);
            } else {
                assert(m.shuf_mask@[q] == 0);
            }
        }
        assert(m.wf());
    }
    m
}

} // verus!
