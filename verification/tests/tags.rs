use bytematch::MatchError;
use bytematch::MatchOutcome;
use bytematch::tag_chunked;
use bytematch::tag_unrolled;

fn both(tag: &[u8], input: &[u8]) -> MatchOutcome<()> {
    let r1 = tag_unrolled(tag, input);
    let r2 = tag_chunked(tag, input);
    assert_eq!(r1, r2, "tag strategies disagree on {:?} vs {:?}", tag, input);
    r1
}

#[test]
fn tag_simd_test() {
    let tag1: &[u8] = b"ABCDABCDABCDABCD";
    let tag2: &[u8] = b"ABCDABCDABCD";
    let tag3: &[u8] = b"ABCDABCDABCDABCDEFGH";

    let slice1: &[u8] = b"ABCDABCDABCDABCD";
    let slice2: &[u8] = b"ABcdabcdabcdabcd";
    let slice3: &[u8] = b"ABCDabcd";
    let slice4: &[u8] = b"ABCDABCDABCDABCDABCD";

    // whole tag equal: sixteen bytes consumed
    assert_eq!(
        both(tag1, slice1),
        MatchOutcome::Done { consumed: 16, value: () }
    );
    // first difference at offset two
    assert_eq!(
        both(tag1, slice2),
        MatchOutcome::Error { kind: MatchError::NoMatch }
    );
    // twelve-byte tag matched inside a longer input
    let r = both(tag2, slice1);
    assert_eq!(r, MatchOutcome::Done { consumed: 12, value: () });
    assert_eq!(&slice1[12..], &b"ABCD"[..]);
    // first difference at offset four, input not exhausted
    assert_eq!(
        both(tag3, slice3),
        MatchOutcome::Error { kind: MatchError::NoMatch }
    );
    // first difference at offset sixteen, past the first block
    assert_eq!(
        both(tag3, slice4),
        MatchOutcome::Error { kind: MatchError::NoMatch }
    );
}

#[test]
fn tag_done_scenario() {
    let input: &[u8] = b"ABCDABCDABCDABCDabcd";
    let r = both(b"ABCD", input);
    assert_eq!(r, MatchOutcome::Done { consumed: 4, value: () });
    assert_eq!(&input[..4], &b"ABCD"[..]);
    assert_eq!(&input[4..], &b"ABCDABCDABCDabcd"[..]);
}

#[test]
fn tag_incomplete_with_hint() {
    assert_eq!(
        both(b"ABCD", b"ABC"),
        MatchOutcome::Incomplete { needed: Some(1) }
    );
    assert_eq!(
        both(b"ABCDEFGH", b"AB"),
        MatchOutcome::Incomplete { needed: Some(6) }
    );
    assert_eq!(
        both(b"ABCD", b""),
        MatchOutcome::Incomplete { needed: Some(4) }
    );
}

#[test]
fn tag_empty_matches_immediately() {
    assert_eq!(
        both(b"", b"anything"),
        MatchOutcome::Done { consumed: 0, value: () }
    );
    assert_eq!(both(b"", b""), MatchOutcome::Done { consumed: 0, value: () });
}

#[test]
fn tag_mismatch_before_exhaustion() {
    // input shorter than the tag, but differing before it runs out
    assert_eq!(
        both(b"ABCD", b"AXC"),
        MatchOutcome::Error { kind: MatchError::NoMatch }
    );
}

#[test]
fn tag_long_tags_cross_blocks() {
    // tags longer than one block exercise the chunked loop's continuation
    let tag: &[u8] = b"ABCDEFGHIJKLMNOPQRSTUVWXYZ0123456789";
    let mut input = tag.to_vec();
    input.extend_from_slice(b"tail");
    assert_eq!(
        both(tag, &input),
        MatchOutcome::Done { consumed: 36, value: () }
    );
    let mut damaged = tag.to_vec();
    damaged[20] = b'!';
    assert_eq!(
        both(tag, &damaged),
        MatchOutcome::Error { kind: MatchError::NoMatch }
    );
    assert_eq!(
        both(tag, &tag[..20]),
        MatchOutcome::Incomplete { needed: Some(16) }
    );
}

#[test]
fn tag_rescan_reads_only_remainder() {
    // after a Done, matching again on the unchanged remainder consumes the
    // next occurrence, never the already-consumed bytes
    let input: &[u8] = b"ABCDABCDABCDABCDabcd";
    let r = both(b"ABCD", input);
    let consumed = match r {
        MatchOutcome::Done { consumed, .. } => consumed,
        other => panic!("expected Done, got {:?}", other),
    };
    let rem = &input[consumed..];
    assert_eq!(
        both(b"ABCD", rem),
        MatchOutcome::Done { consumed: 4, value: () }
    );
    // and on a remainder that does not begin with the tag, no match
    let rem2 = &input[16..];
    assert_eq!(
        both(b"ABCD", rem2),
        MatchOutcome::Error { kind: MatchError::NoMatch }
    );
}
