use bytematch::CandidateSet;
use bytematch::MasksVec;
use bytematch::MatchError;
use bytematch::prepare;
use bytematch::push_byte;
use bytematch::push_byte_be;

fn set_of(strings: &[&[u8]]) -> CandidateSet {
    let items: Vec<Vec<u8>> = strings.iter().map(|s| s.to_vec()).collect();
    CandidateSet::new(items).unwrap()
}

#[test]
fn prepare_test() {
    let strings: [&[u8]; 8] = [
        b"Acce", b"Cont", b"Date", b"ConA", b"Forw", b"Host", b"User", b"Up34",
    ];
    let set = set_of(&strings);
    let masks = prepare(&set);
    assert_eq!(masks.cmp, b"AcceContDateConAForwHostUserUp34".to_vec());
    let mut shuf = Vec::new();
    let mut ids = Vec::new();
    for k in 0..8u8 {
        for j in 0..4u8 {
            shuf.push(j);
            ids.push(if j == 3 { k } else { 0xFF });
        }
    }
    assert_eq!(masks.shuf_mask, shuf);
    assert_eq!(masks.ids, ids);
    assert_eq!(masks.high_mask, 0x8888_8888);
    assert_eq!(masks.low_mask, 0x1111_1111);
}

#[test]
fn prepare_mixed_lengths() {
    let set = set_of(&[b"GET", b"PUT", b"DELETE", b"POST"]);
    let masks = prepare(&set);
    assert_eq!(masks.cmp[..16].to_vec(), b"GETPUTDELETEPOST".to_vec());
    assert!(masks.cmp[16..].iter().all(|&b| b == 0));
    // tails at offsets 2, 5, 11, 15; heads at 0, 3, 6, 12
    assert_eq!(masks.high_mask, (1 << 2) | (1 << 5) | (1 << 11) | (1 << 15));
    assert_eq!(masks.low_mask, (1 << 0) | (1 << 3) | (1 << 6) | (1 << 12));
    assert_eq!(masks.ids[2], 0);
    assert_eq!(masks.ids[5], 1);
    assert_eq!(masks.ids[11], 2);
    assert_eq!(masks.ids[15], 3);
    assert_eq!(masks.ids[0], 0xFF);
}

#[test]
fn masks_vec_recovers_lengths() {
    let set = set_of(&[b"GET", b"PUT", b"DELETE", b"POST"]);
    let masks = prepare(&set);
    let mv = MasksVec::from(masks);
    assert_eq!(mv.lens, vec![3, 3, 6, 4]);
    // the table buffers carry over unchanged
    assert_eq!(mv.cmp[..16].to_vec(), b"GETPUTDELETEPOST".to_vec());
    assert_eq!(mv.high_mask, (1 << 2) | (1 << 5) | (1 << 11) | (1 << 15));
}

#[test]
fn candidate_set_rejects_empty_string() {
    let items: Vec<Vec<u8>> = vec![b"GET".to_vec(), Vec::new()];
    assert_eq!(
        CandidateSet::new(items).unwrap_err(),
        MatchError::InvalidCandidateSet
    );
}

#[test]
fn candidate_set_rejects_over_capacity() {
    // nine four-byte candidates: 36 bytes > 32
    let items: Vec<Vec<u8>> = (0..9).map(|_| b"ABCD".to_vec()).collect();
    assert_eq!(
        CandidateSet::new(items).unwrap_err(),
        MatchError::InvalidCandidateSet
    );
}

#[test]
fn candidate_set_rejects_overlong_candidate() {
    // one 17-byte candidate cannot be compared against a 16-byte window
    let items: Vec<Vec<u8>> = vec![b"ABCDEFGHIJKLMNOPQ".to_vec()];
    assert_eq!(
        CandidateSet::new(items).unwrap_err(),
        MatchError::InvalidCandidateSet
    );
}

#[test]
fn candidate_set_accepts_full_capacity() {
    // exactly 32 bytes in total, and a 16-byte candidate, are fine
    let items: Vec<Vec<u8>> = vec![b"ABCDEFGHIJKLMNOP".to_vec(), b"QRSTUVWXYZ012345".to_vec()];
    assert!(CandidateSet::new(items).is_ok());
}

const fn is_header_value_token(c: u8) -> bool {
    c == b'\t' || (c > 31 && c != 127)
}

#[test]
fn print() {
    let mut table = [false; 256];
    let mut i = 0u16;
    while i <= 255 {
        table[i as usize] = is_header_value_token(i as u8);
        i += 1;
    }
    assert!(table[b'\t' as usize]);
    assert!(table[b'A' as usize]);
    assert!(!table[b'\n' as usize]);
    assert!(!table[127]);
}

#[test]
fn push_byte_renders_bits() {
    let mut s = String::new();
    push_byte(&mut s, 0xA5);
    assert_eq!(s, "1_1__1_1");
    push_byte(&mut s, 0x00);
    assert_eq!(s, "1_1__1_1________");
}

#[test]
fn push_byte_be_renders_bits() {
    let mut s = String::new();
    push_byte_be(&mut s, 0x80);
    push_byte_be(&mut s, 0x01);
    assert_eq!(s, "1______________1");
}
