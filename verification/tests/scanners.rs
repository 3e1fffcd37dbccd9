use bytematch::MatchError;
use bytematch::MatchOutcome;
use bytematch::take_while0_ranges;
use bytematch::take_while0_unrolled;
use bytematch::take_while1_ranges;
use bytematch::take_while1_unrolled;

fn is_token(c: u8) -> bool {
    c > 0x20 && c < 0x7F
}

#[test]
fn simd_test() {
    let range: &[u8] = b"\0 \x7F\x7F";
    let input: &[u8] = b"/abcd/efgh/ij kl/pouet/ 1234579";
    let res = take_while1_ranges(range, input);
    match res {
        MatchOutcome::Done { consumed, .. } => {
            assert_eq!(&input[..consumed], &b"/abcd/efgh/ij"[..]);
            assert_eq!(&input[consumed..], &b" kl/pouet/ 1234579"[..]);
        }
        other => panic!("expected Done, got {:?}", other),
    }
    // the scalar unrolled path with the equivalent predicate agrees
    let res2 = take_while1_unrolled(is_token, input);
    assert_eq!(res, res2);
}

#[test]
fn scan_one_or_more_scenarios() {
    let is_a = |c: u8| c == b'a';
    let r = take_while1_unrolled(is_a, b"aaaa b");
    assert_eq!(r, MatchOutcome::Done { consumed: 4, value: () });
    let input: &[u8] = b"aaaa b";
    assert_eq!(&input[..4], &b"aaaa"[..]);
    assert_eq!(&input[4..], &b" b"[..]);

    assert_eq!(
        take_while1_unrolled(is_a, b"bcd"),
        MatchOutcome::Error { kind: MatchError::NoMatch }
    );

    assert_eq!(
        take_while1_unrolled(is_a, b"aaaa"),
        MatchOutcome::Incomplete { needed: None }
    );
}

#[test]
fn scan_zero_or_more_scenarios() {
    let is_a = |c: u8| c == b'a';
    assert_eq!(
        take_while0_unrolled(is_a, b"bcd"),
        MatchOutcome::Done { consumed: 0, value: () }
    );
    assert_eq!(
        take_while0_unrolled(is_a, b"aaab"),
        MatchOutcome::Done { consumed: 3, value: () }
    );
    assert_eq!(
        take_while0_unrolled(is_a, b"aaaa"),
        MatchOutcome::Incomplete { needed: None }
    );
    assert_eq!(
        take_while0_unrolled(is_a, b""),
        MatchOutcome::Incomplete { needed: None }
    );
    assert_eq!(
        take_while1_unrolled(is_a, b""),
        MatchOutcome::Error { kind: MatchError::NoMatch }
    );
}

fn reference_scan(pred: impl Fn(u8) -> bool, input: &[u8]) -> usize {
    let mut i = 0;
    while i < input.len() && pred(input[i]) {
        i += 1;
    }
    i
}

#[test]
fn scan_agreement_all_lengths() {
    // all input lengths from zero to four windows plus seven, covering the
    // unrolled-loop and tail-loop boundaries
    let range: &[u8] = b"\0 \x7F\x7F";
    let stops = [0usize, 3, 7, 8, 9, 15, 16, 17, 31, 32, 33, 47, 63, 70];
    for len in 0..=(16 * 4 + 7) {
        for &stop in stops.iter() {
            let mut input = Vec::new();
            for q in 0..len {
                input.push(if q == stop { b' ' } else { b'x' });
            }
            let expect = reference_scan(is_token, &input);
            let r1 = take_while1_unrolled(is_token, &input);
            let r1r = take_while1_ranges(range, &input);
            assert_eq!(r1, r1r, "one-or-more disagreement at len {} stop {}", len, stop);
            let r0 = take_while0_unrolled(is_token, &input);
            let r0r = take_while0_ranges(range, &input);
            assert_eq!(r0, r0r, "zero-or-more disagreement at len {} stop {}", len, stop);
            match r0 {
                MatchOutcome::Done { consumed, .. } => {
                    assert_eq!(consumed, expect);
                    assert!(consumed < input.len());
                }
                MatchOutcome::Incomplete { .. } => assert_eq!(expect, input.len()),
                MatchOutcome::Error { .. } => panic!("zero-or-more scan cannot fail"),
            }
        }
    }
}

#[test]
fn scan_ranges_multiple_pairs() {
    // stop on digits or on uppercase letters
    let range: &[u8] = b"09AZ";
    let input: &[u8] = b"hello, World 99";
    let r = take_while1_ranges(range, input);
    assert_eq!(r, MatchOutcome::Done { consumed: 7, value: () });
    assert_eq!(&input[7..], &b"World 99"[..]);
}

#[test]
fn scan_rescan_reads_only_remainder() {
    // after a Done, the remainder begins with the stop byte: a one-or-more
    // re-run finds nothing, a zero-or-more re-run consumes nothing
    let is_a = |c: u8| c == b'a';
    let input: &[u8] = b"aaaa b";
    let r = take_while1_unrolled(is_a, input);
    let consumed = match r {
        MatchOutcome::Done { consumed, .. } => consumed,
        other => panic!("expected Done, got {:?}", other),
    };
    let rem = &input[consumed..];
    assert_eq!(
        take_while1_unrolled(is_a, rem),
        MatchOutcome::Error { kind: MatchError::NoMatch }
    );
    assert_eq!(
        take_while0_unrolled(is_a, rem),
        MatchOutcome::Done { consumed: 0, value: () }
    );
}
