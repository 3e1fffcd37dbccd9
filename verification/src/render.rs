//! Bit-mask rendering helpers: append a byte's bits, most significant
//! first, as `'1'` for a set bit and `'_'` for a clear one. These feed the
//! human-readable mask dumps a host program may print while debugging
//! candidate tables.

use vstd::prelude::*;
use vstd::string::StringExecFns;

verus! {

/// Bit `k` of `byte`, counting from the most significant (`k == 0` is the
/// top bit).
pub open spec fn msb_bit_set(byte: u8, k: int) -> bool {
    byte & (1u8 << ((7 - k) as u8)) != 0
}

/// The eight characters rendering `byte`, most significant bit first.
pub open spec fn bits_of(byte: u8) -> Seq<char> {
    Seq::new(8, |k: int| if msb_bit_set(byte, k) { '1' } else { '_' })
}

/// Appends the eight bit characters of `byte` to `s`, most significant bit
/// first.
pub fn push_byte(s: &mut String, byte: u8)
    ensures
        final(s)@ == old(s)@ + bits_of(byte),
{
    let ghost start = s@;
    let mut i: usize = 0;
    while i < 8
        invariant
            0 <= i <= 8,
            s@ == start + bits_of(byte).take(i as int),
        decreases 8 - i,
    {
        let shift: u8 = (7 - i) as u8;
        if byte & (1u8 << shift) != 0 {
            s.append("1");
            proof {
                reveal_strlit("1");
                assert("1"@ =~= seq!['1']);
            }
        } else {
            s.append("_");
            proof {
                reveal_strlit("_");
                assert("_"@ =~= seq!['_']);
            }
        }
        proof {
            assert(bits_of(byte)[i as int] == (if msb_bit_set(byte, i as int) {
                '1'
            } else {
                '_'
            }));
            assert(s@ =~= start + bits_of(byte).take(i + 1));
        }
        i = i + 1;
    }
    proof {
        assert(bits_of(byte).take(8) =~= bits_of(byte));
    }
}

/// Appends the eight bit characters of one byte of a big-endian rendering;
/// bit order within the byte is the same as `push_byte`'s, most significant
/// first.
pub fn push_byte_be(s: &mut String, byte: u8)
    ensures
        final(s)@ == old(s)@ + bits_of(byte),
{
    let ghost start = s@;
    let mut i: usize = 0;
    while i < 8
        invariant
            0 <= i <= 8,
            s@ == start + bits_of(byte).take(i as int),
        decreases 8 - i,
    {
        let shift: u8 = (7 - i) as u8;
        if byte & (1u8 << shift) != 0 {
            s.append("1");
            proof {
                reveal_strlit("1");
                assert("1"@ =~= seq!['1']);
            }
        } else {
            s.append("_");
            proof {
                reveal_strlit("_");
                assert("_"@ =~= seq!['_']);
            }
        }
        proof {
            assert(bits_of(byte)[i as int] == (if msb_bit_set(byte, i as int) {
                '1'
            } else {
                '_'
            }));
            assert(s@ =~= start + bits_of(byte).take(i + 1));
        }
        i = i + 1;
    }
    proof {
        assert(bits_of(byte).take(8) =~= bits_of(byte));
    }
}

} // verus!
