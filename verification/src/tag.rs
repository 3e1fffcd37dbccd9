//! The exact tag matcher: decides whether a buffer begins with one fixed
//! byte sequence. Two strategies share one contract: a scalar loop unrolled
//! eight comparisons wide with an explicit length guard before the unrolled
//! block, and a chunked variant that compares a window-sized block at a
//! time the way a packed string-compare primitive would.

use vstd::prelude::*;

use crate::candidates::WINDOW_SIZE;
use crate::outcome::MatchError;
use crate::outcome::MatchOutcome;

verus! {

/// The first `n` bytes of `s` equal the first `n` bytes of `tag`.
pub open spec fn prefix_eq(tag: Seq<u8>, s: Seq<u8>, n: int) -> bool {
    forall|j: int| 0 <= j < n ==> s[j] == tag[j]
}

/// What a tag match promises: `Done` consuming exactly the tag when the
/// input begins with it; `Error(NoMatch)` exactly when some byte differs
/// before either side runs out; `Incomplete` exactly when the input is a
/// proper prefix of the tag, with a hint of how many bytes are missing.
pub open spec fn tag_spec_ok(tag: Seq<u8>, s: Seq<u8>, r: MatchOutcome<()>) -> bool {
    match r {
        MatchOutcome::Done { consumed, value } => {
            &&& consumed == tag.len()
            &&& tag.len() <= s.len()
            &&& prefix_eq(tag, s, tag.len() as int)
        },
        MatchOutcome::Error { kind } => {
            &&& kind == MatchError::NoMatch
            &&& exists|j: int| 0 <= j < tag.len() && j < s.len() && s[j] != tag[j]
        },
        MatchOutcome::Incomplete { needed } => {
            &&& s.len() < tag.len()
            &&& prefix_eq(tag, s, s.len() as int)
            &&& needed == Some((tag.len() - s.len()) as usize)
        },
    }
}

/// Turns the shared post-scan state into the outcome: `i` bytes of tag and
/// input are known equal, and if the scan stopped before the shorter end,
/// the bytes at `i` differ.
fn finish_tag(tag: &[u8], input: &[u8], i: usize) -> (r: MatchOutcome<()>)
    requires
        i <= tag@.len(),
        i <= input@.len(),
        prefix_eq(tag@, input@, i as int),
        i < tag@.len() && i < input@.len() ==> input@[i as int] != tag@[i as int],
    ensures
        tag_spec_ok(tag@, input@, r),
{
    if i == tag.len() {
        MatchOutcome::Done { consumed: i, value: () }
    } else if input.len() > i {
        proof {
            assert(input@[i as int] != tag@[i as int]);
        }
        MatchOutcome::Error { kind: MatchError::NoMatch }
    } else {
        MatchOutcome::Incomplete { needed: Some(tag.len() - i) }
    }
}

/// Matches `tag` at the start of `input` with a scalar loop unrolled eight
/// comparisons wide, then a bounds-checked tail loop for the remainder.
pub fn tag_unrolled(tag: &[u8], input: &[u8]) -> (r: MatchOutcome<()>)
    ensures
        tag_spec_ok(tag@, input@, r),
{
    let mut i: usize = 0;
    let len = if tag.len() < input.len() {
        tag.len()
    } else {
        input.len()
    };
    loop
        invariant_except_break
            0 <= i <= len,
            len <= tag@.len(),
            len <= input@.len(),
            len == tag@.len() || len == input@.len(),
            prefix_eq(tag@, input@, i as int),
        ensures
            0 <= i <= len,
            prefix_eq(tag@, input@, i as int),
            len - i < 8 || (i < len && input@[i as int] != tag@[i as int]),
        decreases len - i,
    {
        if len - i < 8 {
            break ;
        }
        if tag[i] != input[i] {
            break ;
        }
        i = i + 1;
        if tag[i] != input[i] {
            break ;
        }
        i = i + 1;
        if tag[i] != input[i] {
            break ;
        }
        i = i + 1;
        if tag[i] != input[i] {
            break ;
        }
        i = i + 1;
        if tag[i] != input[i] {
            break ;
        }
        i = i + 1;
        if tag[i] != input[i] {
            break ;
        }
        i = i + 1;
        if tag[i] != input[i] {
            break ;
        }
        i = i + 1;
        if tag[i] != input[i] {
            break ;
        }
        i = i + 1;
    }
    loop
        invariant_except_break
            0 <= i <= len,
            len <= tag@.len(),
            len <= input@.len(),
            len == tag@.len() || len == input@.len(),
            prefix_eq(tag@, input@, i as int),
        ensures
            0 <= i <= len,
            prefix_eq(tag@, input@, i as int),
            i == len || input@[i as int] != tag@[i as int],
        decreases len - i,
    {
        if i == len {
            break ;
        }
        if tag[i] != input[i] {
            break ;
        }
        i = i + 1;
    }
    finish_tag(tag, input, i)
}

/// First index in `[start, start+count)` where tag and input bytes differ,
/// or `start+count` when the whole block compares equal: the scalar
/// reference of a packed compare-equal-each over one block.
fn block_first_diff(tag: &[u8], input: &[u8], start: usize, stop: usize) -> (d: usize)
    requires
        start <= stop,
        stop <= tag@.len(),
        stop <= input@.len(),
    ensures
        start <= d <= stop,
        forall|q: int| start <= q < d ==> input@[q] == tag@[q],
        d < stop ==> input@[d as int] != tag@[d as int],
{
    let mut d = start;
    while d < stop
        invariant
            start <= d <= stop,
            stop <= tag@.len(),
            stop <= input@.len(),
            forall|q: int| start <= q < d ==> input@[q] == tag@[q],
        decreases stop - d,
    {
        if tag[d] != input[d] {
            return d;
        }
        d = d + 1;
    }
    d
}

/// Matches `tag` at the start of `input`, comparing one window-sized block
/// per step; same contract as `tag_unrolled`.
pub fn tag_chunked(tag: &[u8], input: &[u8]) -> (r: MatchOutcome<()>)
    ensures
        tag_spec_ok(tag@, input@, r),
{
    let mut i: usize = 0;
    let len = if tag.len() < input.len() {
        tag.len()
    } else {
        input.len()
    };
    loop
        invariant_except_break
            0 <= i <= len,
            len <= tag@.len(),
            len <= input@.len(),
            len == tag@.len() || len == input@.len(),
            prefix_eq(tag@, input@, i as int),
        ensures
            0 <= i <= len,
            prefix_eq(tag@, input@, i as int),
            i == len || input@[i as int] != tag@[i as int],
        decreases len - i,
    {
        if i == len {
            break ;
        }
        let count = if len - i < WINDOW_SIZE {
            len - i
        } else {
            WINDOW_SIZE
        };
        let stop = i + count;
        let d = block_first_diff(tag, input, i, stop);
        i = d;
        if i < stop {
            break ;
        }
    }
    finish_tag(tag, input, i)
}

/// Determinism law for the tag matcher: any two strategies that meet the
/// contract return equal outcomes on equal tags and inputs; in particular
/// the unrolled and the chunked matcher always agree, and re-running a
/// matcher on the unconsumed remainder of a prior result depends on that
/// remainder alone.
pub proof fn lemma_tag_strategies_agree(
    tag: Seq<u8>,
    s: Seq<u8>,
    r1: MatchOutcome<()>,
    r2: MatchOutcome<()>,
)
    requires
        tag_spec_ok(tag, s, r1),
        tag_spec_ok(tag, s, r2),
    ensures
        r1 == r2,
{
    match (r1, r2) {
        (
            MatchOutcome::Done { consumed: c1, value: v1 },
            MatchOutcome::Done { consumed: c2, value: v2 },
        ) => {
            assert(c1 == tag.len() && c2 == tag.len());
            assert(v1 == v2);
        },
        (
            MatchOutcome::Incomplete { needed: n1 },
            MatchOutcome::Incomplete { needed: n2 },
        ) => {
            assert(n1 == Some((tag.len() - s.len()) as usize) && n2 == Some(
                (tag.len() - s.len()) as usize,
            ));
        },
        (MatchOutcome::Error { kind: k1 }, MatchOutcome::Error { kind: k2 }) => {
            assert(k1 == MatchError::NoMatch && k2 == MatchError::NoMatch);
        },
        (MatchOutcome::Error { .. }, _) => {
            let j = choose|j: int| 0 <= j < tag.len() && j < s.len() && s[j] != tag[j];
            assert(s[j] == tag[j]);
        },
        (_, MatchOutcome::Error { .. }) => {
            let j = choose|j: int| 0 <= j < tag.len() && j < s.len() && s[j] != tag[j];
            assert(s[j] == tag[j]);
        },
        _ => {},
    }
}

} // verus!
