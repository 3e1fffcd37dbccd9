//! The candidate set: an ordered sequence of non-empty byte strings that the
//! classifier must recognize. Insertion order assigns candidate ids 0..K-1.
//! The set is bounded so that all candidates laid out back to back fit in one
//! comparison table, and each single candidate fits in the input window that
//! the classifier examines.

use vstd::prelude::*;

use crate::outcome::MatchError;

verus! {

/// Number of byte lanes in the comparison table (one bit per lane in the
/// derived bit masks).
pub const TABLE_CAPACITY: usize = 32;

/// Number of input bytes the classifier examines; also the largest length a
/// single candidate may have, since the table compares only replicated copies
/// of this window.
pub const WINDOW_SIZE: usize = 16;

/// Total number of bytes of all candidates laid out back to back.
pub open spec fn total_len(cs: Seq<Seq<u8>>) -> int
    decreases cs.len(),
{
    if cs.len() == 0 {
        0
    } else {
        total_len(cs.drop_last()) + cs.last().len()
    }
}

/// Offset of candidate `i`'s first byte in the shared comparison table.
pub open spec fn offset_of(cs: Seq<Seq<u8>>, i: int) -> int {
    total_len(cs.subrange(0, i))
}

/// Offset of candidate `i`'s last byte in the shared comparison table.
pub open spec fn tail_of(cs: Seq<Seq<u8>>, i: int) -> int {
    offset_of(cs, i) + cs[i].len() - 1
}

/// Some candidate's last byte sits at table offset `p`.
pub open spec fn is_tail(cs: Seq<Seq<u8>>, p: int) -> bool {
    exists|k: int| 0 <= k < cs.len() && p == tail_of(cs, k)
}

/// The structural invariant of a candidate set: every candidate is non-empty,
/// no candidate is longer than the input window, and all candidates together
/// fit in the comparison table.
pub open spec fn candidates_ok(cs: Seq<Seq<u8>>) -> bool {
    &&& forall|i: int| 0 <= i < cs.len() ==> 1 <= (#[trigger] cs[i]).len() <= WINDOW_SIZE
    &&& total_len(cs) <= TABLE_CAPACITY
}

/// Candidate `i` matches the start of `w`: the first bytes of `w` equal
/// candidate `i`'s bytes.
pub open spec fn cand_matches(cs: Seq<Seq<u8>>, i: int, w: Seq<u8>) -> bool {
    &&& cs[i].len() <= w.len()
    &&& forall|j: int| 0 <= j < cs[i].len() ==> w[j] == cs[i][j]
}

pub proof fn lemma_total_len_nonneg(cs: Seq<Seq<u8>>)
    ensures
        total_len(cs) >= 0,
    decreases cs.len(),
{
    if cs.len() > 0 {
        lemma_total_len_nonneg(cs.drop_last());
    }
}

/// Dropping the last candidate removes exactly its length from the total.
pub proof fn lemma_total_len_take(cs: Seq<Seq<u8>>, i: int)
    requires
        0 <= i < cs.len(),
    ensures
        total_len(cs.subrange(0, i + 1)) == total_len(cs.subrange(0, i)) + cs[i].len(),
{
    let pre = cs.subrange(0, i + 1);
    assert(pre.drop_last() =~= cs.subrange(0, i));
    assert(pre.last() == cs[i]);
}

/// `offset_of` steps by the candidate's length: the next candidate starts
/// right after this one's tail.
pub proof fn lemma_offset_step(cs: Seq<Seq<u8>>, i: int)
    requires
        0 <= i < cs.len(),
    ensures
        offset_of(cs, i + 1) == offset_of(cs, i) + cs[i].len(),
        offset_of(cs, i + 1) == tail_of(cs, i) + 1,
{
    lemma_total_len_take(cs, i);
}

/// Every candidate's region lies inside the table: `0 <= offset`, and the
/// region ends at or before `total_len`.
pub proof fn lemma_region_bounds(cs: Seq<Seq<u8>>, i: int)
    requires
        0 <= i < cs.len(),
    ensures
        0 <= offset_of(cs, i),
        offset_of(cs, i) + cs[i].len() <= total_len(cs),
    decreases cs.len() - i,
{
    lemma_total_len_nonneg(cs.subrange(0, i));
    lemma_offset_step(cs, i);
    if i + 1 == cs.len() {
        assert(cs.subrange(0, i + 1) =~= cs);
    } else {
        lemma_region_bounds(cs, i + 1);
        lemma_total_len_nonneg(cs.subrange(0, i + 1));
        assert(total_len(cs.subrange(0, i + 1)) <= total_len(cs)) by {
            lemma_prefix_le_total(cs, i + 1);
        }
    }
}

/// A prefix never sums to more than the whole.
pub proof fn lemma_prefix_le_total(cs: Seq<Seq<u8>>, i: int)
    requires
        0 <= i <= cs.len(),
    ensures
        total_len(cs.subrange(0, i)) <= total_len(cs),
    decreases cs.len() - i,
{
    if i == cs.len() {
        assert(cs.subrange(0, i) =~= cs);
    } else {
        lemma_total_len_take(cs, i);
        lemma_prefix_le_total(cs, i + 1);
    }
}

/// Regions of distinct candidates are laid out in order: the whole region of
/// an earlier candidate sits strictly below the region of a later one.
pub proof fn lemma_regions_ordered(cs: Seq<Seq<u8>>, i: int, k: int)
    requires
        candidates_ok(cs),
        0 <= i < k < cs.len(),
    ensures
        tail_of(cs, i) < offset_of(cs, k),
    decreases k - i,
{
    lemma_offset_step(cs, i);
    if i + 1 == k {
    } else {
        lemma_regions_ordered(cs, i + 1, k);
    }
}

/// With every candidate non-empty, there are at most as many candidates as
/// table bytes.
pub proof fn lemma_count_le_total(cs: Seq<Seq<u8>>)
    requires
        forall|i: int| 0 <= i < cs.len() ==> 1 <= (#[trigger] cs[i]).len(),
    ensures
        cs.len() <= total_len(cs),
    decreases cs.len(),
{
    if cs.len() > 0 {
        let pre = cs.drop_last();
        assert(forall|i: int| 0 <= i < pre.len() ==> 1 <= (#[trigger] pre[i]).len());
        lemma_count_le_total(pre);
    }
}

/// Every position below `total_len` lies in exactly one candidate's region.
pub proof fn lemma_position_in_region(cs: Seq<Seq<u8>>, p: int)
    requires
        0 <= p < total_len(cs),
    ensures
        exists|k: int|
            0 <= k < cs.len() && offset_of(cs, k) <= p < offset_of(cs, k) + (#[trigger] cs[k]).len(),
    decreases cs.len(),
{
    let pre = cs.drop_last();
    assert(pre =~= cs.subrange(0, cs.len() - 1));
    lemma_total_len_nonneg(pre);
    if p < total_len(pre) {
        lemma_position_in_region(pre, p);
        let k = choose|k: int|
            0 <= k < pre.len() && offset_of(pre, k) <= p < offset_of(pre, k) + (#[trigger] pre[k]).len();
        assert(pre.subrange(0, k) =~= cs.subrange(0, k));
        assert(cs[k] == pre[k]);
        assert(offset_of(cs, k) <= p < offset_of(cs, k) + cs[k].len());
    } else {
        let k = cs.len() - 1;
        assert(offset_of(cs, k) == total_len(pre));
        assert(offset_of(cs, k) <= p < offset_of(cs, k) + cs[k].len());
    }
}

/// An ordered set of candidate byte strings, validated against the capacity
/// invariant. Immutable once built; building it is the only fallible step.
#[derive(Debug)]
pub struct CandidateSet {
    items: Vec<Vec<u8>>,
}

impl View for CandidateSet {
    type V = Seq<Seq<u8>>;

    closed spec fn view(&self) -> Seq<Seq<u8>> {
        self.items.deep_view()
    }
}

impl CandidateSet {
    /// Every reachable `CandidateSet` satisfies the capacity invariant:
    /// construction is the only fallible step, and it validates.
    #[verifier::type_invariant]
    pub open spec fn type_inv(&self) -> bool {
        candidates_ok(self@)
    }

    /// Validates and wraps an ordered list of byte strings.
    ///
    /// Fails with `InvalidCandidateSet` exactly when some candidate is empty,
    /// some candidate is longer than the input window, or the total length
    /// exceeds the table capacity.
    pub fn new(items: Vec<Vec<u8>>) -> (r: Result<CandidateSet, MatchError>)
        ensures
            r matches Ok(s) ==> s@ == items.deep_view() && candidates_ok(items.deep_view()),
            r is Err ==> !candidates_ok(items.deep_view()) && (r matches Err(e)
                && e == MatchError::InvalidCandidateSet),
    {
        let ghost cs = items.deep_view();
        assert(cs.len() == items.len());
        let mut total: usize = 0;
        let mut i: usize = 0;
        while i < items.len()
            invariant
                0 <= i <= items.len(),
                cs == items.deep_view(),
                cs.len() == items.len(),
                total == total_len(cs.subrange(0, i as int)),
                total <= TABLE_CAPACITY,
                forall|k: int| 0 <= k < i ==> 1 <= (#[trigger] cs[k]).len() <= WINDOW_SIZE,
            decreases items.len() - i,
        {
            assert(cs[i as int] == items[i as int]@);
            let len = items[i].len();
            if len == 0 || len > WINDOW_SIZE {
                return Err(MatchError::InvalidCandidateSet);
            }
            proof {
                lemma_total_len_take(cs, i as int);
            }
            if total > TABLE_CAPACITY - len {
                proof {
                    lemma_prefix_le_total(cs, i + 1);
                }
                return Err(MatchError::InvalidCandidateSet);
            }
            total = total + len;
            i = i + 1;
        }
        proof {
            assert(cs.subrange(0, items.len() as int) =~= cs);
        }
        Ok(CandidateSet { items })
    }

    /// Number of candidates in the set.
    pub fn len(&self) -> (n: usize)
        ensures
            n == self@.len(),
    {
        self.items.len()
    }

    /// Borrows candidate `i`'s bytes.
    pub fn get(&self, i: usize) -> (c: &Vec<u8>)
        requires
            i < self@.len(),
        ensures
            c@ == self@[i as int],
    {
        &self.items[i]
    }
}

} // verus!
