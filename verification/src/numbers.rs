//! Radix-positional reading and writing of unsigned numbers over ASCII
//! digit bytes. Number lexems keep their digit text until a stage needs the
//! value; these functions are that boundary.

use vstd::prelude::*;
use vstd::arithmetic::div_mod::lemma_fundamental_div_mod;

verus! {

/// The numeric weight of an ASCII digit byte: `0`-`9`, then letters from
/// ten upward in either case. Non-digit bytes weigh zero.
pub open spec fn digit_value(c: u8) -> nat {
    if 48 <= c <= 57 {
        (c - 48) as nat
    } else if 97 <= c <= 122 {
        (c - 87) as nat
    } else if 65 <= c <= 90 {
        (c - 55) as nat
    } else {
        0
    }
}

/// Whether `c` is a digit byte that a number of base `radix` may hold.
pub open spec fn is_digit(c: u8, radix: nat) -> bool {
    &&& ((48 <= c <= 57) || (97 <= c <= 122) || (65 <= c <= 90))
    &&& digit_value(c) < radix
}

/// Whether every byte of `s` is a digit of base `radix`.
pub open spec fn valid_digits(s: Seq<u8>, radix: nat) -> bool {
    forall|i: int| 0 <= i < s.len() ==> is_digit(#[trigger] s[i], radix)
}

/// The unbounded value of digit text `s` read most-significant first in
/// base `radix`.
pub open spec fn parse_radix(s: Seq<u8>, radix: nat) -> nat
    decreases s.len(),
{
    if s.len() == 0 {
        0
    } else {
        parse_radix(s.drop_last(), radix) * radix + digit_value(s.last())
    }
}

/// What reading digit text as a machine word yields: empty or ill-digited
/// text is no number at all, and a value past the word is too big.
pub open spec fn spec_parse_u64(s: Seq<u8>, radix: nat) -> Result<u64, crate::errors::ErrorKind> {
    if s.len() == 0 || !valid_digits(s, radix) {
        Err(crate::errors::ErrorKind::ExpectedNumber)
    } else if parse_radix(s, radix) > u64::MAX {
        Err(crate::errors::ErrorKind::NumberTooBig)
    } else {
        Ok(parse_radix(s, radix) as u64)
    }
}

/// Dropping trailing digits never increases the value.
proof fn lemma_parse_prefix(s: Seq<u8>, radix: nat, i: int)
    requires
        1 <= radix,
        0 <= i <= s.len(),
    ensures
        parse_radix(s.take(i), radix) <= parse_radix(s, radix),
    decreases s.len(),
{
    if i == s.len() {
        assert(s.take(i) =~= s);
    } else {
        assert(s.drop_last().take(i) =~= s.take(i));
        lemma_parse_prefix(s.drop_last(), radix, i);
        let p = parse_radix(s.drop_last(), radix);
        assert(p * radix >= p * 1) by (nonlinear_arith)
            requires radix >= 1, p >= 0;
    }
}

/// Whether `c` is a digit byte of base `radix`, decided in code.
pub fn byte_is_digit(c: u8, radix: u32) -> (r: bool)
    ensures
        r == is_digit(c, radix as nat),
{
    let v: u32 = if 48 <= c && c <= 57 {
        (c - 48) as u32
    } else if 97 <= c && c <= 122 {
        (c - 87) as u32
    } else if 65 <= c && c <= 90 {
        (c - 55) as u32
    } else {
        return false;
    };
    v < radix
}

/// Reads digit text as a `u64` in base `radix`, exactly as
/// [`spec_parse_u64`] says: rejecting empty or invalid text, and values
/// that do not fit the word.
pub fn parse_u64(s: &[u8], radix: u32) -> (r: Result<u64, crate::errors::ErrorKind>)
    requires
        2 <= radix <= 36,
    ensures
        r == spec_parse_u64(s@, radix as nat),
{
    if s.len() == 0 {
        return Err(crate::errors::ErrorKind::ExpectedNumber);
    }
    let mut i: usize = 0;
    while i < s.len()
        invariant
            0 <= i <= s@.len(),
            forall|j: int| 0 <= j < i ==> is_digit(#[trigger] s@[j], radix as nat),
            2 <= radix <= 36,
        decreases s@.len() - i,
    {
        if !byte_is_digit(s[i], radix) {
            return Err(crate::errors::ErrorKind::ExpectedNumber);
        }
        i += 1;
    }
    let mut acc: u64 = 0;
    let mut k: usize = 0;
    let r64: u64 = radix as u64;
    while k < s.len()
        invariant
            0 <= k <= s@.len(),
            valid_digits(s@, radix as nat),
            2 <= radix <= 36,
            r64 == radix,
            acc == parse_radix(s@.take(k as int), radix as nat),
        decreases s@.len() - k,
    {
        let d: u64 = digit_weight(s[k]);
        proof {
            assert(s@.take(k + 1).drop_last() =~= s@.take(k as int));
            assert(s@.take(k + 1).last() == s@[k as int]);
        }
        if acc > (u64::MAX - d) / r64 {
            proof {
                let m: int = u64::MAX - d;
                let q: int = m / (r64 as int);
                lemma_fundamental_div_mod(m, r64 as int);
                assert(acc * r64 + d > u64::MAX) by (nonlinear_arith)
                    requires
                        acc > q,
                        m == (r64 as int) * q + m % (r64 as int),
                        0 <= m % (r64 as int),
                        r64 >= 2,
                        m == u64::MAX - d;
                lemma_parse_prefix(s@, radix as nat, k + 1);
            }
            return Err(crate::errors::ErrorKind::NumberTooBig);
        }
        proof {
            let m: int = u64::MAX - d;
            let q: int = m / (r64 as int);
            lemma_fundamental_div_mod(m, r64 as int);
            assert(acc * r64 + d <= u64::MAX) by (nonlinear_arith)
                requires
                    acc <= q,
                    m == (r64 as int) * q + m % (r64 as int),
                    0 <= m % (r64 as int),
                    r64 >= 2,
                    m == u64::MAX - d;
        }
        acc = acc * r64 + d;
        k += 1;
    }
    proof {
        assert(s@.take(s@.len() as int) =~= s@);
    }
    Ok(acc)
}

/// The weight of a digit byte as a machine word.
pub fn digit_weight(c: u8) -> (r: u64)
    ensures
        r == digit_value(c),
{
    if 48 <= c && c <= 57 {
        (c - 48) as u64
    } else if 97 <= c && c <= 122 {
        (c - 87) as u64
    } else if 65 <= c && c <= 90 {
        (c - 55) as u64
    } else {
        0
    }
}

/// The decimal digit text of `v`: most significant digit first, no
/// leading zeros but for `0` itself.
pub open spec fn dec_text(v: nat) -> Seq<u8>
    decreases v,
{
    if v < 10 {
        seq![(48 + v) as u8]
    } else {
        dec_text(v / 10).push((48 + v % 10) as u8)
    }
}

/// Decimal text reads back as the value it was written from: it is
/// never empty, holds only decimal digits, and parses to `v` in base ten.
pub proof fn lemma_dec_text_value(v: nat)
    ensures
        valid_digits(dec_text(v), 10),
        parse_radix(dec_text(v), 10) == v,
        dec_text(v).len() >= 1,
    decreases v,
{
    if v < 10 {
        let s = dec_text(v);
        assert(s.last() == (48 + v) as u8);
        assert(s.drop_last() =~= Seq::<u8>::empty());
        assert(parse_radix(Seq::<u8>::empty(), 10) == 0);
    } else {
        lemma_dec_text_value(v / 10);
        let s = dec_text(v);
        assert(s.drop_last() =~= dec_text(v / 10));
        assert(forall|i: int| 0 <= i < s.len() - 1
            ==> s[i] == #[trigger] dec_text(v / 10)[i]);
        assert(digit_value(s.last()) == v % 10);
        assert(v / 10 * 10 + v % 10 == v) by {
            lemma_fundamental_div_mod(v as int, 10);
        };
    }
}

/// Writes `v` as its decimal digit text [`dec_text`]; reading the text
/// back in base ten gives `v` again, and the text is never empty.
pub fn fmt_dec(v: u64) -> (r: Vec<u8>)
    ensures
        r@ == dec_text(v as nat),
        valid_digits(r@, 10),
        parse_radix(r@, 10) == v,
        r@.len() >= 1,
    decreases v,
{
    if v < 10 {
        let mut r: Vec<u8> = Vec::new();
        r.push(48 + v as u8);
        proof {
            assert(r@ =~= dec_text(v as nat));
            assert(r@.drop_last() =~= Seq::<u8>::empty());
            assert(parse_radix(Seq::<u8>::empty(), 10) == 0);
        }
        return r;
    }
    let mut r = fmt_dec(v / 10);
    let d: u8 = 48 + (v % 10) as u8;
    proof {
        let full = r@.push(d);
        assert(full.drop_last() =~= r@);
        assert(full.last() == d);
    }
    r.push(d);
    proof {
        assert(r@ =~= dec_text(v as nat));
    }
    r
}

} // verus!
