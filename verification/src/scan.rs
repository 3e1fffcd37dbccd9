//! The range scanner: finds the longest prefix of a buffer whose bytes all
//! satisfy a membership predicate, as an arbitrary boolean function (scalar
//! unrolled path) or as an explicit set of stop ranges (the chunked
//! reference of the vectorized path). Each comes in a zero-or-more and a
//! one-or-more flavour, distinguished by name, never conflated.

use vstd::prelude::*;

use crate::candidates::WINDOW_SIZE;
use crate::outcome::MatchError;
use crate::outcome::MatchOutcome;

verus! {

/// The byte-by-byte reference scan: length of the longest prefix of `s`
/// whose bytes all satisfy `p`.
pub open spec fn scan_len(p: spec_fn(u8) -> bool, s: Seq<u8>) -> int
    decreases s.len(),
{
    if s.len() == 0 || !p(s[0]) {
        0
    } else {
        1 + scan_len(p, s.drop_first())
    }
}

/// The reference scan stops at the first byte failing `p`: every byte
/// before `scan_len` satisfies `p` and the byte at `scan_len`, if any, does
/// not.
pub proof fn lemma_scan_len_char(p: spec_fn(u8) -> bool, s: Seq<u8>)
    ensures
        0 <= scan_len(p, s) <= s.len(),
        forall|q: int| 0 <= q < scan_len(p, s) ==> p(s[q]),
        scan_len(p, s) < s.len() ==> !p(s[scan_len(p, s)]),
    decreases s.len(),
{
    if s.len() == 0 || !p(s[0]) {
    } else {
        let dr = s.drop_first();
        lemma_scan_len_char(p, dr);
        let n = scan_len(p, s);
        assert forall|q: int| 0 <= q < n implies p(s[q]) by {
            if q > 0 {
                assert(p(dr[q - 1]));
                assert(dr[q - 1] == s[q]);
            }
        }
        if n < s.len() {
            assert(!p(dr[n - 1]));
            assert(dr[n - 1] == s[n]);
        }
    }
}

/// Uniqueness of the scan length: any stopping point with an all-satisfying
/// prefix and a failing next byte is the reference scan length. This is
/// what makes every conforming scanner, scalar or chunked, agree with the
/// byte-by-byte reference.
pub proof fn lemma_scan_len_unique(p: spec_fn(u8) -> bool, s: Seq<u8>, n: int)
    requires
        0 <= n <= s.len(),
        forall|q: int| 0 <= q < n ==> p(s[q]),
        n < s.len() ==> !p(s[n]),
    ensures
        n == scan_len(p, s),
{
    lemma_scan_len_char(p, s);
    let m = scan_len(p, s);
    if n < m {
        assert(p(s[n]));
        assert(false);
    }
    if m < n {
        assert(p(s[m]));
        assert(false);
    }
}

/// What a zero-or-more scan promises: the longest satisfying prefix is
/// consumed; if it covers the whole buffer the scan cannot yet see where
/// the match ends and reports `Incomplete`.
pub open spec fn scan0_spec_ok(p: spec_fn(u8) -> bool, s: Seq<u8>, r: MatchOutcome<()>) -> bool {
    match r {
        MatchOutcome::Done { consumed, value } => {
            &&& consumed == scan_len(p, s)
            &&& consumed < s.len()
        },
        MatchOutcome::Error { kind } => false,
        MatchOutcome::Incomplete { needed } => {
            &&& scan_len(p, s) == s.len()
            &&& needed is None
        },
    }
}

/// What a one-or-more scan promises: as the zero-or-more scan, but an empty
/// satisfying prefix (including an empty buffer) is `Error(NoMatch)`.
pub open spec fn scan1_spec_ok(p: spec_fn(u8) -> bool, s: Seq<u8>, r: MatchOutcome<()>) -> bool {
    match r {
        MatchOutcome::Done { consumed, value } => {
            &&& consumed == scan_len(p, s)
            &&& 1 <= consumed < s.len()
        },
        MatchOutcome::Error { kind } => {
            &&& kind == MatchError::NoMatch
            &&& scan_len(p, s) == 0
        },
        MatchOutcome::Incomplete { needed } => {
            &&& scan_len(p, s) == s.len()
            &&& s.len() > 0
            &&& needed is None
        },
    }
}

/// The boolean function `cond` computes the spec predicate `p`: every
/// value `cond` can return for a byte is `p` of that byte.
pub open spec fn cond_decides<F: Fn(u8) -> bool>(cond: F, p: spec_fn(u8) -> bool) -> bool {
    forall|b: u8, v: bool| #[trigger] call_ensures(cond, (b,), v) ==> v == p(b)
}

/// Every byte of `s` before `n` got a `true` verdict from `cond`.
pub open spec fn cond_true_upto<F: Fn(u8) -> bool>(cond: F, s: Seq<u8>, n: int) -> bool {
    forall|q: int| 0 <= q < n ==> call_ensures(cond, (#[trigger] s[q],), true)
}

/// What a scan with an arbitrary boolean function promises, stated over the
/// verdicts the function actually returned: every consumed byte got a
/// `true`, and the stop byte (when the buffer was not exhausted) a `false`.
pub open spec fn scan0_raw_ok<F: Fn(u8) -> bool>(cond: F, s: Seq<u8>, r: MatchOutcome<()>) -> bool {
    match r {
        MatchOutcome::Done { consumed, value } => {
            &&& consumed < s.len()
            &&& cond_true_upto(cond, s, consumed as int)
            &&& call_ensures(cond, (s[consumed as int],), false)
        },
        MatchOutcome::Error { kind } => false,
        MatchOutcome::Incomplete { needed } => {
            &&& cond_true_upto(cond, s, s.len() as int)
            &&& needed is None
        },
    }
}

/// One-or-more variant of `scan0_raw_ok`.
pub open spec fn scan1_raw_ok<F: Fn(u8) -> bool>(cond: F, s: Seq<u8>, r: MatchOutcome<()>) -> bool {
    match r {
        MatchOutcome::Done { consumed, value } => {
            &&& 1 <= consumed < s.len()
            &&& cond_true_upto(cond, s, consumed as int)
            &&& call_ensures(cond, (s[consumed as int],), false)
        },
        MatchOutcome::Error { kind } => {
            &&& kind == MatchError::NoMatch
            &&& s.len() == 0 || call_ensures(cond, (s[0],), false)
        },
        MatchOutcome::Incomplete { needed } => {
            &&& cond_true_upto(cond, s, s.len() as int)
            &&& s.len() > 0
            &&& needed is None
        },
    }
}

/// Longest prefix of `input` on which `cond` keeps answering `true`,
/// scanned eight bytes per unrolled iteration behind an explicit length
/// guard, then one byte at a time for the remainder below eight. Returns
/// the split index.
fn scan_cond_core<F: Fn(u8) -> bool>(cond: &F, input: &[u8]) -> (i: usize)
    requires
        forall|b: u8| call_requires(*cond, (b,)),
    ensures
        0 <= i <= input@.len(),
        cond_true_upto(*cond, input@, i as int),
        i < input@.len() ==> call_ensures(*cond, (input@[i as int],), false),
{
    let mut i: usize = 0;
    let len = input.len();
    let mut found = false;
    loop
        invariant_except_break
            0 <= i <= len,
            len == input@.len(),
            !found,
            forall|b: u8| call_requires(*cond, (b,)),
            cond_true_upto(*cond, input@, i as int),
        ensures
            0 <= i <= len,
            len == input@.len(),
            cond_true_upto(*cond, input@, i as int),
            found ==> i < len && call_ensures(*cond, (input@[i as int],), false),
            !found ==> len - i < 8,
        decreases len - i,
    {
        if len - i < 8 {
            break ;
        }
        if !cond(input[i]) {
            found = true;
            break ;
        }
        i = i + 1;
        if !cond(input[i]) {
            found = true;
            break ;
        }
        i = i + 1;
        if !cond(input[i]) {
            found = true;
            break ;
        }
        i = i + 1;
        if !cond(input[i]) {
            found = true;
            break ;
        }
        i = i + 1;
        if !cond(input[i]) {
            found = true;
            break ;
        }
        i = i + 1;
        if !cond(input[i]) {
            found = true;
            break ;
        }
        i = i + 1;
        if !cond(input[i]) {
            found = true;
            break ;
        }
        i = i + 1;
        if !cond(input[i]) {
            found = true;
            break ;
        }
        i = i + 1;
    }
    if !found {
        loop
            invariant_except_break
                0 <= i <= len,
                len == input@.len(),
                forall|b: u8| call_requires(*cond, (b,)),
                cond_true_upto(*cond, input@, i as int),
            ensures
                0 <= i <= len,
                len == input@.len(),
                cond_true_upto(*cond, input@, i as int),
                i == len || call_ensures(*cond, (input@[i as int],), false),
            decreases len - i,
        {
            if i == len {
                break ;
            }
            if !cond(input[i]) {
                break ;
            }
            i = i + 1;
        }
    }
    i
}

/// Zero-or-more scan with an arbitrary boolean function, unrolled eight
/// bytes per iteration. An empty matching prefix is reported as `Done` with
/// nothing consumed; a prefix covering the whole buffer is `Incomplete`.
pub fn take_while0_unrolled<F: Fn(u8) -> bool>(cond: F, input: &[u8]) -> (r: MatchOutcome<()>)
    requires
        forall|b: u8| call_requires(cond, (b,)),
    ensures
        scan0_raw_ok(cond, input@, r),
        forall|p: spec_fn(u8) -> bool| #[trigger] cond_decides(cond, p) ==> scan0_spec_ok(
            p,
            input@,
            r,
        ),
{
    let i = scan_cond_core(&cond, input);
    let r: MatchOutcome<()> = if i == input.len() {
        MatchOutcome::Incomplete { needed: None }
    } else {
        MatchOutcome::Done { consumed: i, value: () }
    };
    proof {
        assert forall|p: spec_fn(u8) -> bool| #[trigger] cond_decides(cond, p) implies scan0_spec_ok(
            p,
            input@,
            r,
        ) by {
            assert forall|q: int| 0 <= q < i implies p(input@[q]) by {
                assert(call_ensures(cond, (input@[q],), true));
            }
            lemma_scan_len_unique(p, input@, i as int);
        }
    }
    r
}

/// One-or-more scan with an arbitrary boolean function, unrolled eight
/// bytes per iteration. An empty matching prefix (or an empty buffer) is
/// `Error(NoMatch)`.
pub fn take_while1_unrolled<F: Fn(u8) -> bool>(cond: F, input: &[u8]) -> (r: MatchOutcome<()>)
    requires
        forall|b: u8| call_requires(cond, (b,)),
    ensures
        scan1_raw_ok(cond, input@, r),
        forall|p: spec_fn(u8) -> bool| #[trigger] cond_decides(cond, p) ==> scan1_spec_ok(
            p,
            input@,
            r,
        ),
{
    let i = scan_cond_core(&cond, input);
    let r: MatchOutcome<()> = if i == 0 {
        MatchOutcome::Error { kind: MatchError::NoMatch }
    } else if i == input.len() {
        MatchOutcome::Incomplete { needed: None }
    } else {
        MatchOutcome::Done { consumed: i, value: () }
    };
    proof {
        assert forall|p: spec_fn(u8) -> bool| #[trigger] cond_decides(cond, p) implies scan1_spec_ok(
            p,
            input@,
            r,
        ) by {
            assert forall|q: int| 0 <= q < i implies p(input@[q]) by {
                assert(call_ensures(cond, (input@[q],), true));
            }
            lemma_scan_len_unique(p, input@, i as int);
        }
    }
    r
}

/// One inclusive byte-value pair of the stop set covers `b`.
pub open spec fn pair_covers(ranges: Seq<u8>, k: int, b: u8) -> bool {
    ranges[2 * k] <= b && b <= ranges[2 * k + 1]
}

/// `b` falls in one of the inclusive stop ranges (pairs of low and high
/// bounds laid out flat).
pub open spec fn in_ranges(ranges: Seq<u8>, b: u8) -> bool {
    exists|k: int| 0 <= k && 2 * k + 1 < ranges.len() && #[trigger] pair_covers(ranges, k, b)
}

/// The membership predicate of a stop-range set: a byte is allowed while it
/// falls in none of the ranges.
pub open spec fn range_allowed(ranges: Seq<u8>) -> spec_fn(u8) -> bool {
    |b: u8| !in_ranges(ranges, b)
}

/// Whether `b` is allowed to continue the scan (in no stop range).
fn byte_allowed(ranges: &[u8], b: u8) -> (r: bool)
    requires
        ranges@.len() % 2 == 0,
    ensures
        r == !in_ranges(ranges@, b),
{
    let rlen = ranges.len();
    let pairs = rlen / 2;
    let mut k: usize = 0;
    while k < pairs
        invariant
            0 <= k <= pairs,
            rlen == ranges@.len(),
            ranges@.len() % 2 == 0,
            pairs == ranges@.len() / 2,
            forall|k2: int| 0 <= k2 < k ==> !#[trigger] pair_covers(ranges@, k2, b),
        decreases pairs - k,
    {
        proof {
            assert(2 * (k as int) + 1 < rlen) by (nonlinear_arith)
                requires
                    0 <= k < pairs,
                    pairs == rlen / 2,
                    rlen % 2 == 0,
            ;
        }
        let lo = ranges[2 * k];
        let hi = ranges[2 * k + 1];
        if lo <= b && b <= hi {
            proof {
                assert(pair_covers(ranges@, k as int, b));
            }
            return false;
        }
        proof {
            assert(!pair_covers(ranges@, k as int, b));
        }
        k = k + 1;
    }
    proof {
        if in_ranges(ranges@, b) {
            let kw = choose|kw: int|
                0 <= kw && 2 * kw + 1 < ranges@.len() && #[trigger] pair_covers(ranges@, kw, b);
            assert(kw < pairs) by (nonlinear_arith)
                requires
                    0 <= kw,
                    2 * kw + 1 < ranges@.len(),
                    pairs == ranges@.len() / 2,
                    ranges@.len() % 2 == 0,
            ;
            assert(false);
        }
    }
    true
}

/// First index in `[start, stop)` whose byte falls in a stop range, or
/// `stop` when the whole block is allowed: the scalar reference of a packed
/// find-first-byte-in-ranges over one block.
fn block_first_stop(ranges: &[u8], input: &[u8], start: usize, stop: usize) -> (d: usize)
    requires
        ranges@.len() % 2 == 0,
        start <= stop,
        stop <= input@.len(),
    ensures
        start <= d <= stop,
        forall|q: int| start <= q < d ==> !in_ranges(ranges@, #[trigger] input@[q]),
        d < stop ==> in_ranges(ranges@, input@[d as int]),
{
    let mut d = start;
    while d < stop
        invariant
            start <= d <= stop,
            stop <= input@.len(),
            ranges@.len() % 2 == 0,
            forall|q: int| start <= q < d ==> !in_ranges(ranges@, #[trigger] input@[q]),
        decreases stop - d,
    {
        if !byte_allowed(ranges, input[d]) {
            return d;
        }
        d = d + 1;
    }
    d
}

/// Longest prefix of `input` with no byte in a stop range, scanned one
/// window-sized block per step with a scalar tail loop for the final
/// partial block.
fn scan_ranges_core(ranges: &[u8], input: &[u8]) -> (i: usize)
    requires
        ranges@.len() % 2 == 0,
    ensures
        0 <= i <= input@.len(),
        i == scan_len(range_allowed(ranges@), input@),
{
    let len = input.len();
    let mut i: usize = 0;
    loop
        invariant_except_break
            0 <= i <= len,
            len == input@.len(),
            ranges@.len() % 2 == 0,
            forall|q: int| 0 <= q < i ==> !in_ranges(ranges@, #[trigger] input@[q]),
        ensures
            0 <= i <= len,
            len == input@.len(),
            forall|q: int| 0 <= q < i ==> !in_ranges(ranges@, #[trigger] input@[q]),
            len - i < WINDOW_SIZE || (i < len && in_ranges(ranges@, input@[i as int])),
        decreases len - i,
    {
        if len - i < WINDOW_SIZE {
            break ;
        }
        let stop = i + WINDOW_SIZE;
        let d = block_first_stop(ranges, input, i, stop);
        i = d;
        if i < stop {
            break ;
        }
    }
    loop
        invariant_except_break
            0 <= i <= len,
            len == input@.len(),
            ranges@.len() % 2 == 0,
            forall|q: int| 0 <= q < i ==> !in_ranges(ranges@, #[trigger] input@[q]),
        ensures
            0 <= i <= len,
            forall|q: int| 0 <= q < i ==> !in_ranges(ranges@, #[trigger] input@[q]),
            i == len || in_ranges(ranges@, input@[i as int]),
        decreases len - i,
    {
        if i == len {
            break ;
        }
        if !byte_allowed(ranges, input[i]) {
            break ;
        }
        i = i + 1;
    }
    proof {
        let p = range_allowed(ranges@);
        assert forall|q: int| 0 <= q < i implies p(input@[q]) by {
            assert(!in_ranges(ranges@, input@[q]));
        }
        if (i as int) < input@.len() {
            assert(!p(input@[i as int]));
        }
        lemma_scan_len_unique(p, input@, i as int);
    }
    i
}

/// Zero-or-more scan against a stop-range set (at most half a window of
/// range bytes), processed one window-sized block at a time.
pub fn take_while0_ranges(ranges: &[u8], input: &[u8]) -> (r: MatchOutcome<()>)
    requires
        ranges@.len() % 2 == 0,
        ranges@.len() <= WINDOW_SIZE,
    ensures
        scan0_spec_ok(range_allowed(ranges@), input@, r),
{
    let i = scan_ranges_core(ranges, input);
    if i == input.len() {
        MatchOutcome::Incomplete { needed: None }
    } else {
        MatchOutcome::Done { consumed: i, value: () }
    }
}

/// One-or-more scan against a stop-range set (at most half a window of
/// range bytes), processed one window-sized block at a time.
pub fn take_while1_ranges(ranges: &[u8], input: &[u8]) -> (r: MatchOutcome<()>)
    requires
        ranges@.len() % 2 == 0,
        ranges@.len() <= WINDOW_SIZE,
    ensures
        scan1_spec_ok(range_allowed(ranges@), input@, r),
{
    let i = scan_ranges_core(ranges, input);
    if i == 0 {
        MatchOutcome::Error { kind: MatchError::NoMatch }
    } else if i == input.len() {
        MatchOutcome::Incomplete { needed: None }
    } else {
        MatchOutcome::Done { consumed: i, value: () }
    }
}

/// Agreement law, zero-or-more: any two scanners that meet the contract for
/// the same predicate return equal outcomes; with the contract pinned to
/// `scan_len`, every strategy agrees with the byte-by-byte reference scan.
pub proof fn lemma_scan0_strategies_agree(
    p: spec_fn(u8) -> bool,
    s: Seq<u8>,
    r1: MatchOutcome<()>,
    r2: MatchOutcome<()>,
)
    requires
        scan0_spec_ok(p, s, r1),
        scan0_spec_ok(p, s, r2),
    ensures
        r1 == r2,
{
    match (r1, r2) {
        (
            MatchOutcome::Done { consumed: c1, value: v1 },
            MatchOutcome::Done { consumed: c2, value: v2 },
        ) => {
            assert(c1 == c2);
            assert(v1 == v2);
        },
        (MatchOutcome::Incomplete { needed: n1 }, MatchOutcome::Incomplete { needed: n2 }) => {
            assert(n1 is None && n2 is None);
        },
        _ => {},
    }
}

/// Agreement law, one-or-more: as `lemma_scan0_strategies_agree`.
pub proof fn lemma_scan1_strategies_agree(
    p: spec_fn(u8) -> bool,
    s: Seq<u8>,
    r1: MatchOutcome<()>,
    r2: MatchOutcome<()>,
)
    requires
        scan1_spec_ok(p, s, r1),
        scan1_spec_ok(p, s, r2),
    ensures
        r1 == r2,
{
    match (r1, r2) {
        (
            MatchOutcome::Done { consumed: c1, value: v1 },
            MatchOutcome::Done { consumed: c2, value: v2 },
        ) => {
            assert(c1 == c2);
            assert(v1 == v2);
        },
        (MatchOutcome::Incomplete { needed: n1 }, MatchOutcome::Incomplete { needed: n2 }) => {
            assert(n1 is None && n2 is None);
        },
        (MatchOutcome::Error { kind: k1 }, MatchOutcome::Error { kind: k2 }) => {
            assert(k1 == MatchError::NoMatch && k2 == MatchError::NoMatch);
        },
        _ => {},
    }
}

/// Re-running a one-or-more scan on the unconsumed remainder of a `Done`
/// cannot re-match the consumed bytes: the remainder starts with the very
/// byte the scan stopped on, so the re-run reports `NoMatch`.
pub proof fn lemma_scan1_rescan(
    p: spec_fn(u8) -> bool,
    s: Seq<u8>,
    n: int,
    r2: MatchOutcome<()>,
)
    requires
        scan1_spec_ok(p, s, MatchOutcome::Done { consumed: n as usize, value: () }),
        0 <= n <= usize::MAX,
        scan1_spec_ok(p, s.skip(n), r2),
    ensures
        r2 is Error,
{
    lemma_scan_len_char(p, s);
    let rem = s.skip(n);
    assert(rem[0] == s[n]);
    assert(!p(rem[0]));
    assert(scan_len(p, rem) == 0);
}

/// Re-running a zero-or-more scan on the unconsumed remainder of a `Done`
/// consumes nothing: the remainder starts with the stop byte.
pub proof fn lemma_scan0_rescan(
    p: spec_fn(u8) -> bool,
    s: Seq<u8>,
    n: int,
    r2: MatchOutcome<()>,
)
    requires
        scan0_spec_ok(p, s, MatchOutcome::Done { consumed: n as usize, value: () }),
        0 <= n <= usize::MAX,
        scan0_spec_ok(p, s.skip(n), r2),
    ensures
        r2 matches MatchOutcome::Done { consumed, .. } && consumed == 0,
{
    lemma_scan_len_char(p, s);
    let rem = s.skip(n);
    assert(rem[0] == s[n]);
    assert(!p(rem[0]));
    assert(scan_len(p, rem) == 0);
}

} // verus!
