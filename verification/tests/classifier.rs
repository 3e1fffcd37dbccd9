use bytematch::CandidateSet;
use bytematch::MatchError;
use bytematch::MatchOutcome;
use bytematch::classify;
use bytematch::classify_reference;
use bytematch::prepare;

fn set_of(strings: &[&[u8]]) -> CandidateSet {
    let items: Vec<Vec<u8>> = strings.iter().map(|s| s.to_vec()).collect();
    CandidateSet::new(items).unwrap()
}

fn header_set() -> CandidateSet {
    set_of(&[
        b"Acce", b"ConA", b"Date", b"Cont", b"Forw", b"Host", b"User", b"Upgr",
    ])
}

#[test]
fn avx_test() {
    let input: &[u8] = b"Content-Length: 1234\r\nHost: hello.com";
    let set = header_set();
    let masks = prepare(&set);
    let r = classify(&masks, input);
    // "Cont" is candidate 3 and four bytes long
    assert!(r.is_done());
    assert_eq!(r, MatchOutcome::Done { consumed: 4, value: 3 });
    match r {
        MatchOutcome::Done { consumed, .. } => {
            assert_eq!(&input[consumed..], &b"ent-Length: 1234\r\nHost: hello.com"[..]);
        }
        _ => unreachable!(),
    }
}

#[test]
fn classify_matches_each_candidate() {
    let set = header_set();
    let masks = prepare(&set);
    let names: [&[u8]; 8] = [
        b"Acce", b"ConA", b"Date", b"Cont", b"Forw", b"Host", b"User", b"Upgr",
    ];
    for (id, name) in names.iter().enumerate() {
        // candidate bytes followed by enough more to fill the window
        let mut input = name.to_vec();
        input.extend_from_slice(b": something else");
        let r = classify(&masks, &input);
        assert_eq!(
            r,
            MatchOutcome::Done { consumed: name.len(), value: id }
        );
    }
}

#[test]
fn classify_short_input_incomplete() {
    let set = header_set();
    let masks = prepare(&set);
    // fifteen bytes: one short of the window the classifier must load
    let r = classify(&masks, b"Content-Length:");
    assert_eq!(r, MatchOutcome::Incomplete { needed: None });
    assert_eq!(classify(&masks, b""), MatchOutcome::Incomplete { needed: None });
}

#[test]
fn classify_no_match_error() {
    let set = header_set();
    let masks = prepare(&set);
    let r = classify(&masks, b"X-Custom-Header: yes\r\n");
    assert_eq!(
        r,
        MatchOutcome::Error { kind: MatchError::NoMatch }
    );
}

#[test]
fn classify_prefers_first_candidate_in_order() {
    // "AB" and "ABC" both match; insertion order decides
    let set = set_of(&[b"AB", b"ABC"]);
    let masks = prepare(&set);
    let r = classify(&masks, b"ABCDEFGHIJKLMNOP");
    assert_eq!(r, MatchOutcome::Done { consumed: 2, value: 0 });
    let set2 = set_of(&[b"ABC", b"AB"]);
    let masks2 = prepare(&set2);
    let r2 = classify(&masks2, b"ABCDEFGHIJKLMNOP");
    assert_eq!(r2, MatchOutcome::Done { consumed: 3, value: 0 });
}

#[test]
fn classify_consumes_matched_length_not_a_constant() {
    // candidates of different lengths: the consumed count follows the
    // matched candidate, not a fixed width
    let set = set_of(&[b"DELETE", b"GET", b"OPTIONS "]);
    let masks = prepare(&set);
    assert_eq!(
        classify(&masks, b"GET /index.html "),
        MatchOutcome::Done { consumed: 3, value: 1 }
    );
    assert_eq!(
        classify(&masks, b"DELETE /obj HTTP"),
        MatchOutcome::Done { consumed: 6, value: 0 }
    );
    assert_eq!(
        classify(&masks, b"OPTIONS * HTTP/1"),
        MatchOutcome::Done { consumed: 8, value: 2 }
    );
}

#[test]
fn classify_rescan_reads_only_remainder() {
    // after a Done, running again on the unchanged remainder matches the
    // next token, never the consumed bytes
    let set = set_of(&[b"ABCD"]);
    let masks = prepare(&set);
    let input: &[u8] = b"ABCDABCDABCDABCDabcd";
    let r = classify(&masks, input);
    assert_eq!(r, MatchOutcome::Done { consumed: 4, value: 0 });
    let rem = &input[4..];
    let r2 = classify(&masks, rem);
    assert_eq!(r2, MatchOutcome::Done { consumed: 4, value: 0 });
    assert_eq!(&rem[4..], &b"ABCDABCDabcd"[..]);
}

struct Lcg(u64);

impl Lcg {
    fn next(&mut self) -> u64 {
        self.0 = self.0.wrapping_mul(6364136223846793005).wrapping_add(1442695040888963407);
        self.0 >> 33
    }

    fn below(&mut self, n: u64) -> usize {
        (self.next() % n) as usize
    }
}

#[test]
fn classify_differential_against_reference() {
    // randomized candidate sets and inputs: the vector-style classifier
    // must always equal the naive linear reference
    let mut rng = Lcg(0x1234_5678_9abc_def0);
    let alphabet = b"ABC";
    let mut runs = 0usize;
    while runs < 10_000 {
        let n_cands = 1 + rng.below(6);
        let mut items: Vec<Vec<u8>> = Vec::new();
        let mut total = 0usize;
        for _ in 0..n_cands {
            let len = 1 + rng.below(5);
            if total + len > 32 {
                break;
            }
            total += len;
            let mut cand = Vec::new();
            for _ in 0..len {
                cand.push(alphabet[rng.below(3)]);
            }
            items.push(cand);
        }
        if items.is_empty() {
            continue;
        }
        let set = CandidateSet::new(items).unwrap();
        let masks = prepare(&set);
        let in_len = 14 + rng.below(12);
        let mut input = Vec::new();
        for _ in 0..in_len {
            input.push(alphabet[rng.below(3)]);
        }
        let fast = classify(&masks, &input);
        let slow = classify_reference(&set, &input);
        assert_eq!(
            fast, slow,
            "classifier strategies disagree on input {:?}",
            input
        );
        runs += 1;
    }
}
