//! Small byte-text helpers: the assembler keeps every piece of source text
//! as ASCII bytes, so comparisons, case folding and copies are spelled out
//! here once, each with an exact contract.

use vstd::prelude::*;
use vstd::slice::slice_to_vec;

verus! {

/// Whether two byte texts hold the same bytes.
pub fn bytes_eq(a: &[u8], b: &[u8]) -> (r: bool)
    ensures
        r == (a@ == b@),
{
    if a.len() != b.len() {
        proof {
            assert(a@ != b@);
        }
        return false;
    }
    let mut i: usize = 0;
    while i < a.len()
        invariant
            0 <= i <= a@.len(),
            a@.len() == b@.len(),
            forall|j: int| 0 <= j < i ==> a@[j] == b@[j],
        decreases a@.len() - i,
    {
        if a[i] != b[i] {
            return false;
        }
        i += 1;
    }
    proof {
        assert(a@ =~= b@);
    }
    true
}

/// A fresh copy of a byte text.
pub fn copy_bytes(v: &Vec<u8>) -> (r: Vec<u8>)
    ensures
        r@ == v@,
{
    slice_to_vec(v.as_slice())
}

/// The lower-case form of one ASCII byte.
pub open spec fn lower_byte(c: u8) -> u8 {
    if 65 <= c <= 90 {
        (c + 32) as u8
    } else {
        c
    }
}

/// The upper-case form of one ASCII byte.
pub open spec fn upper_byte(c: u8) -> u8 {
    if 97 <= c <= 122 {
        (c - 32) as u8
    } else {
        c
    }
}

/// `s` folded to lower case, byte for byte.
pub open spec fn spec_lower(s: Seq<u8>) -> Seq<u8> {
    s.map_values(|c: u8| lower_byte(c))
}

/// `s` folded to upper case, byte for byte.
pub open spec fn spec_upper(s: Seq<u8>) -> Seq<u8> {
    s.map_values(|c: u8| upper_byte(c))
}

/// Folds ASCII text to lower case.
pub fn ascii_lower(v: &[u8]) -> (r: Vec<u8>)
    ensures
        r@ == spec_lower(v@),
{
    let mut r: Vec<u8> = Vec::new();
    let mut i: usize = 0;
    while i < v.len()
        invariant
            0 <= i <= v@.len(),
            r@.len() == i,
            forall|j: int| 0 <= j < i ==> r@[j] == lower_byte(#[trigger] v@[j]),
        decreases v@.len() - i,
    {
        let c = v[i];
        if 65 <= c && c <= 90 {
            r.push(c + 32);
        } else {
            r.push(c);
        }
        i += 1;
    }
    proof {
        assert(r@ =~= spec_lower(v@));
    }
    r
}

/// Folds ASCII text to upper case.
pub fn ascii_upper(v: &[u8]) -> (r: Vec<u8>)
    ensures
        r@ == spec_upper(v@),
{
    let mut r: Vec<u8> = Vec::new();
    let mut i: usize = 0;
    while i < v.len()
        invariant
            0 <= i <= v@.len(),
            r@.len() == i,
            forall|j: int| 0 <= j < i ==> r@[j] == upper_byte(#[trigger] v@[j]),
        decreases v@.len() - i,
    {
        let c = v[i];
        if 97 <= c && c <= 122 {
            r.push(c - 32);
        } else {
            r.push(c);
        }
        i += 1;
    }
    proof {
        assert(r@ =~= spec_upper(v@));
    }
    r
}

/// The concatenation of two byte texts.
pub fn concat_bytes(a: &[u8], b: &[u8]) -> (r: Vec<u8>)
    ensures
        r@ == a@ + b@,
{
    let mut r = slice_to_vec(a);
    let mut i: usize = 0;
    while i < b.len()
        invariant
            0 <= i <= b@.len(),
            r@ == a@ + b@.take(i as int),
        decreases b@.len() - i,
    {
        r.push(b[i]);
        proof {
            assert(a@ + b@.take(i + 1) =~= (a@ + b@.take(i as int)).push(b@[i as int]));
        }
        i += 1;
    }
    proof {
        assert(b@.take(b@.len() as int) =~= b@);
    }
    r
}


/// Whether `v` holds exactly the one byte `a`.
pub fn bytes_is1(v: &[u8], a: u8) -> (r: bool)
    ensures
        r == (v@ == seq![a]),
{
    let r = v.len() == 1 && v[0] == a;
    proof {
        if v@.len() == 1 && v@[0] == a {
            assert(v@ =~= seq![a]);
        }
    }
    r
}

/// Whether `v` holds exactly the two bytes `a`, `b`.
pub fn bytes_is2(v: &[u8], a: u8, b: u8) -> (r: bool)
    ensures
        r == (v@ == seq![a, b]),
{
    let r = v.len() == 2 && v[0] == a && v[1] == b;
    proof {
        if v@.len() == 2 && v@[0] == a && v@[1] == b {
            assert(v@ =~= seq![a, b]);
        }
    }
    r
}

/// Whether `v` holds exactly the three bytes `a`, `b`, `c`.
pub fn bytes_is3(v: &[u8], a: u8, b: u8, c: u8) -> (r: bool)
    ensures
        r == (v@ == seq![a, b, c]),
{
    let r = v.len() == 3 && v[0] == a && v[1] == b && v[2] == c;
    proof {
        if v@.len() == 3 && v@[0] == a && v@[1] == b && v@[2] == c {
            assert(v@ =~= seq![a, b, c]);
        }
    }
    r
}

} // verus!
