//! Spelling bytes out as ASCII strings of binary digits, most significant
//! bit first.
use vstd::prelude::*;

verus! {

/// The ASCII digit for bit `7 - i` of `b`: `'1'` when it is set, else `'0'`.
pub open spec fn bit_digit(b: u8, i: int) -> u8 {
    if (b >> ((7 - i) as u8)) & 1u8 == 1u8 {
        0x31u8
    } else {
        0x30u8
    }
}

/// The eight ASCII digits of `b`, most significant bit first.
pub open spec fn byte_bits(b: u8) -> Seq<u8> {
    Seq::new(8, |i: int| bit_digit(b, i))
}

/// The digits of every byte of `s`, in order.
pub open spec fn bits_of(s: Seq<u8>) -> Seq<u8>
    decreases s.len(),
{
    if s.len() == 0 {
        Seq::empty()
    } else {
        bits_of(s.drop_last()) + byte_bits(s.last())
    }
}

/// Returns the eight ASCII digits of `b`, most significant bit first.
pub fn bit_string(b: u8) -> (r: Vec<u8>)
    ensures
        r@ == byte_bits(b),
{
    let mut r: Vec<u8> = Vec::new();
    let mut i: u8 = 0;
    while i < 8
        invariant
            i <= 8,
            r@ == byte_bits(b).take(i as int),
        decreases 8 - i,
    {
        let d: u8 = if (b >> (7 - i)) & 1 == 1 {
            0x31
        } else {
            0x30
        };
        r.push(d);
        i = i + 1;
        assert(r@ =~= byte_bits(b).take(i as int));
    }
    assert(r@ =~= byte_bits(b));
    r
}

/// Returns the ASCII digits of every byte of `input`, eight per byte.
pub fn encode_bits(input: &[u8]) -> (r: Vec<u8>)
    requires
        8 * input@.len() <= usize::MAX,
    ensures
        r@ == bits_of(input@),
        r@.len() == 8 * input@.len(),
{
    let mut out: Vec<u8> = Vec::new();
    let mut i: usize = 0;
    while i < input.len()
        invariant
            i <= input@.len(),
            out@ == bits_of(input@.take(i as int)),
            out@.len() == 8 * i,
        decreases input@.len() - i,
    {
        let digits = bit_string(input[i]);
        let mut j: usize = 0;
        let ghost before = out@;
        while j < 8
            invariant
                j <= 8,
                digits@ == byte_bits(input@[i as int]),
                out@ == before + digits@.take(j as int),
            decreases 8 - j,
        {
            out.push(digits[j]);
            j = j + 1;
            assert(out@ =~= before + digits@.take(j as int));
        }
        assert(input@.take(i + 1).drop_last() =~= input@.take(i as int));
        assert(digits@.take(8) =~= digits@);
        i = i + 1;
    }
    assert(input@.take(input@.len() as int) =~= input@);
    out
}

} // verus!
