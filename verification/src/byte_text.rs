//! Byte-string helpers: comparison and ASCII upper-casing.
use vstd::prelude::*;

verus! {

/// Whether two byte strings are equal.
pub fn bytes_eq(a: &[u8], b: &[u8]) -> (r: bool)
    ensures
        r == (a@ == b@),
{
    if a.len() != b.len() {
        return false;
    }
    let mut i: usize = 0;
    while i < a.len()
        invariant
            i <= a@.len(),
            a@.len() == b@.len(),
            forall|j: int| 0 <= j < i ==> a@[j] == b@[j],
        decreases a@.len() - i,
    {
        if a[i] != b[i] {
            return false;
        }
        i += 1;
    }
    assert(a@ =~= b@);
    true
}

/// The byte with ASCII lower-case letters mapped to upper case.
pub open spec fn ascii_upper(b: u8) -> u8 {
    if 97 <= b <= 122 {
        (b - 32) as u8
    } else {
        b
    }
}

/// The bytes with ASCII lower-case letters mapped to upper case, as
/// `<[u8]>::to_ascii_uppercase` does.
pub open spec fn ascii_uppercase(s: Seq<u8>) -> Seq<u8> {
    s.map_values(|b: u8| ascii_upper(b))
}

/// A copy of `s` with ASCII lower-case letters mapped to upper case.
pub fn to_ascii_uppercase(s: &[u8]) -> (r: Vec<u8>)
    ensures
        r@ == ascii_uppercase(s@),
{
    let mut out: Vec<u8> = Vec::new();
    let mut i: usize = 0;
    while i < s.len()
        invariant
            i <= s@.len(),
            out@ == ascii_uppercase(s@.subrange(0, i as int)),
        decreases s@.len() - i,
    {
        let b = s[i];
        let u = if 97 <= b && b <= 122 {
            b - 32
        } else {
            b
        };
        out.push(u);
        i += 1;
        assert(out@ =~= ascii_uppercase(s@.subrange(0, i as int)));
    }
    assert(s@.subrange(0, i as int) =~= s@);
    out
}

} // verus!
