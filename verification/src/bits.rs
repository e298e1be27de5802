//! Bit-string building and grouping. Instruction fields are rendered as
//! ASCII `0`/`1` text, concatenated, and only at the very end grouped into
//! big-endian bytes; these functions carry the exact value through both
//! steps.

use vstd::prelude::*;
use vstd::arithmetic::power2::{pow2, lemma_pow2_unfold, lemma_pow2_strictly_increases, lemma2_to64};
use vstd::arithmetic::div_mod::lemma_fundamental_div_mod;
use crate::errors::ErrorKind;
use crate::numbers::{parse_radix, valid_digits, digit_value, parse_u64};

verus! {

/// The low `w` bits of `v` as ASCII bit text, most significant first.
pub open spec fn bits_of(v: nat, w: nat) -> Seq<u8>
    decreases w,
{
    if w == 0 {
        Seq::empty()
    } else {
        bits_of(v / 2, (w - 1) as nat).push(if v % 2 == 1 { 49u8 } else { 48u8 })
    }
}

/// Bit text of width `w` is exactly `w` bytes of valid binary digits.
pub proof fn lemma_bits_of_wf(v: nat, w: nat)
    ensures
        bits_of(v, w).len() == w,
        valid_digits(bits_of(v, w), 2),
    decreases w,
{
    if w > 0 {
        lemma_bits_of_wf(v / 2, (w - 1) as nat);
        let s = bits_of(v, w);
        assert(forall|i: int| 0 <= i < s.len() - 1 ==> s[i] == #[trigger] bits_of(v / 2, (w - 1) as nat)[i]);
    }
}

/// A value below `pow2(w)` is read back unchanged from its `w`-bit text.
pub proof fn lemma_bits_of_value(v: nat, w: nat)
    requires
        v < pow2(w),
    ensures
        parse_radix(bits_of(v, w), 2) == v,
    decreases w,
{
    if w == 0 {
        assert(pow2(0) == 1) by { lemma2_to64(); };
    } else {
        lemma_pow2_unfold(w);
        lemma_bits_of_wf(v / 2, (w - 1) as nat);
        lemma_bits_of_value(v / 2, (w - 1) as nat);
        let s = bits_of(v, w);
        assert(s.drop_last() =~= bits_of(v / 2, (w - 1) as nat));
        assert(digit_value(if v % 2 == 1 { 49u8 } else { 48u8 }) == v % 2);
        assert(v / 2 * 2 + v % 2 == v) by {
            lemma_fundamental_div_mod(v as int, 2);
        };
    }
}

/// Valid binary digit text of length `n` denotes a value below `pow2(n)`.
pub proof fn lemma_parse_lt_pow2(s: Seq<u8>)
    requires
        valid_digits(s, 2),
    ensures
        parse_radix(s, 2) < pow2(s.len()),
    decreases s.len(),
{
    if s.len() == 0 {
        assert(pow2(0) == 1) by { lemma2_to64(); };
    } else {
        assert(valid_digits(s.drop_last(), 2)) by {
            assert(forall|i: int| 0 <= i < s.len() - 1 ==> #[trigger] s.drop_last()[i] == s[i]);
        };
        lemma_parse_lt_pow2(s.drop_last());
        lemma_pow2_unfold(s.len());
        assert(digit_value(s.last()) < 2);
    }
}

/// Renders the low `width` bits of `value` as bit text, mirroring
/// [`bits_of`].
pub fn encode_width_bits(value: u64, width: usize) -> (r: Vec<u8>)
    ensures
        r@ == bits_of(value as nat, width as nat),
    decreases width,
{
    if width == 0 {
        let r: Vec<u8> = Vec::new();
        proof {
            assert(r@ =~= bits_of(value as nat, 0));
        }
        r
    } else {
        let mut r = encode_width_bits(value / 2, width - 1);
        let b: u8 = if value % 2 == 1 { 49 } else { 48 };
        r.push(b);
        proof {
            assert(r@ =~= bits_of(value as nat, width as nat));
        }
        r
    }
}

/// `pow2` as a machine word, for exponents below the word size.
pub fn pow2_u64(w: usize) -> (r: u64)
    requires
        w < 64,
    ensures
        r == pow2(w as nat),
{
    let mut r: u64 = 1;
    let mut i: usize = 0;
    proof {
        assert(pow2(0) == 1) by { lemma2_to64(); };
    }
    while i < w
        invariant
            0 <= i <= w < 64,
            r == pow2(i as nat),
        decreases w - i,
    {
        proof {
            if i + 1 < 64 {
                lemma_pow2_strictly_increases((i + 1) as nat, 64);
            }
            assert(pow2(64) == 0x10000000000000000) by { lemma2_to64(); };
            lemma_pow2_unfold((i + 1) as nat);
        }
        r = r * 2;
        i += 1;
    }
    r
}

/// What a field of `width` bits holds for `value`: exactly the `width`-bit
/// rendering, and an error whenever the value needs more binary digits than
/// the field has.
pub open spec fn spec_encode_field(v: nat, w: nat) -> Result<Seq<u8>, ErrorKind> {
    if w == 0 || v >= pow2(w) {
        Err(ErrorKind::NumberTooBig)
    } else {
        Ok(bits_of(v, w))
    }
}

/// Renders `value` into a field of `width` bits, left-zero-padded, per
/// [`spec_encode_field`]: the text is exactly `width` digits long and reads
/// back as `value`, and an overflowing value is refused, never truncated.
pub fn encode_field(value: u64, width: usize) -> (r: Result<Vec<u8>, ErrorKind>)
    ensures
        match r {
            Ok(bits) => {
                &&& spec_encode_field(value as nat, width as nat) == Ok::<Seq<u8>, ErrorKind>(bits@)
                &&& bits@.len() == width
                &&& valid_digits(bits@, 2)
                &&& parse_radix(bits@, 2) == value
            },
            Err(e) => spec_encode_field(value as nat, width as nat) == Err::<Seq<u8>, ErrorKind>(e),
        },
{
    if width == 0 {
        return Err(ErrorKind::NumberTooBig);
    }
    if width < 64 {
        let bound = pow2_u64(width);
        if value >= bound {
            return Err(ErrorKind::NumberTooBig);
        }
    } else {
        proof {
            assert(pow2(64) == 0x10000000000000000) by { lemma2_to64(); };
            if width > 64 {
                lemma_pow2_strictly_increases(64, width as nat);
            }
        }
    }
    let bits = encode_width_bits(value, width);
    proof {
        lemma_bits_of_wf(value as nat, width as nat);
        lemma_bits_of_value(value as nat, width as nat);
    }
    Ok(bits)
}

/// Law: a field encoding is exactly `width` bits, left-zero-padded — it
/// reads back as the very value it encodes — and a value needing more
/// binary digits than the field has is refused, never truncated.
pub proof fn lemma_encode_field_exact(v: nat, w: nat)
    ensures
        match spec_encode_field(v, w) {
            Ok(bits) => {
                &&& bits.len() == w
                &&& valid_digits(bits, 2)
                &&& parse_radix(bits, 2) == v
            },
            Err(k) => k == ErrorKind::NumberTooBig && (w == 0 || v >= pow2(w)),
        },
{
    if w > 0 && v < pow2(w) {
        lemma_bits_of_wf(v, w);
        lemma_bits_of_value(v, w);
    }
}

/// `v` written big-endian into `n` bytes, low bytes of `v` last; bytes of
/// `v` past the `n`-th are dropped.
pub open spec fn be_bytes(v: nat, n: nat) -> Seq<u8>
    decreases n,
{
    if n == 0 {
        Seq::empty()
    } else {
        be_bytes(v / 256, (n - 1) as nat).push((v % 256) as u8)
    }
}

/// Writes `v` big-endian into `n` bytes, mirroring [`be_bytes`].
pub fn u64_be_bytes(v: u64, n: usize) -> (r: Vec<u8>)
    ensures
        r@ == be_bytes(v as nat, n as nat),
        r@.len() == n,
    decreases n,
{
    if n == 0 {
        let r: Vec<u8> = Vec::new();
        proof {
            assert(r@ =~= be_bytes(v as nat, 0));
        }
        r
    } else {
        let mut r = u64_be_bytes(v / 256, n - 1);
        r.push((v % 256) as u8);
        proof {
            assert(r@ =~= be_bytes(v as nat, n as nat));
        }
        r
    }
}

/// How many bytes a finished bit string occupies: none when empty, then
/// the smallest power-of-two word of 1, 2, 4 or 8 bytes that holds it, and
/// no string longer than 64 bits is accepted.
pub open spec fn spec_bits_to_bytes(s: Seq<u8>) -> Result<Seq<u8>, ErrorKind> {
    if s.len() == 0 {
        Ok(Seq::empty())
    } else if s.len() <= 8 {
        Ok(be_bytes(parse_radix(s, 2), 1))
    } else if s.len() <= 16 {
        Ok(be_bytes(parse_radix(s, 2), 2))
    } else if s.len() <= 32 {
        Ok(be_bytes(parse_radix(s, 2), 4))
    } else if s.len() <= 64 {
        Ok(be_bytes(parse_radix(s, 2), 8))
    } else {
        Err(ErrorKind::TooManyBits)
    }
}

/// Groups finished bit text into big-endian bytes per
/// [`spec_bits_to_bytes`].
pub fn bits_to_bytes(bits: &[u8]) -> (r: Result<Vec<u8>, ErrorKind>)
    requires
        valid_digits(bits@, 2),
    ensures
        match r {
            Ok(bytes) => spec_bits_to_bytes(bits@) == Ok::<Seq<u8>, ErrorKind>(bytes@),
            Err(e) => spec_bits_to_bytes(bits@) == Err::<Seq<u8>, ErrorKind>(e),
        },
{
    if bits.len() == 0 {
        return Ok(Vec::new());
    }
    if bits.len() > 64 {
        return Err(ErrorKind::TooManyBits);
    }
    proof {
        lemma_parse_lt_pow2(bits@);
        if bits@.len() < 64 {
            lemma_pow2_strictly_increases(bits@.len(), 64);
        }
        assert(pow2(64) == 0x10000000000000000) by { lemma2_to64(); };
    }
    let v = match parse_u64(bits, 2) {
        Ok(v) => v,
        Err(_) => {
            proof {
                assert(false);
            }
            return Err(ErrorKind::TooManyBits);
        },
    };
    let n: usize = if bits.len() <= 8 {
        1
    } else if bits.len() <= 16 {
        2
    } else if bits.len() <= 32 {
        4
    } else {
        8
    };
    Ok(u64_be_bytes(v, n))
}

} // verus!
