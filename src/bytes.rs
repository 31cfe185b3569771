//! Little-endian field readers over a byte slice.
use vstd::prelude::*;

verus! {

/// The little-endian integer held by `s[pos..pos + n]`.
pub open spec fn le_value(s: Seq<u8>, pos: int, n: nat) -> nat
    decreases n,
{
    if n == 0 {
        0
    } else {
        s[pos] as nat + 256 * le_value(s, pos + 1, (n - 1) as nat)
    }
}

/// Reads one byte at `pos`.
pub fn read_u8(data: &[u8], pos: usize) -> (r: Option<u8>)
    ensures
        data@.len() <= usize::MAX,
        pos < data@.len() <==> r is Some,
        r is Some ==> r->Some_0 == data@[pos as int],
{
    if pos < data.len() {
        Some(data[pos])
    } else {
        None
    }
}

/// Reads a little-endian `u16` at `pos`.
pub fn read_u16(data: &[u8], pos: usize) -> (r: Option<u16>)
    ensures
        pos + 2 <= data@.len() <==> r is Some,
        r is Some ==> r->Some_0 as nat == le_value(data@, pos as int, 2),
{
    if pos <= data.len() && data.len() - pos >= 2 {
        let v: u16 = data[pos] as u16 + 256 * (data[pos + 1] as u16);
        proof {
            reveal_with_fuel(le_value, 3);
        }
        Some(v)
    } else {
        None
    }
}

/// Reads a little-endian `u32` at `pos`.
pub fn read_u32(data: &[u8], pos: usize) -> (r: Option<u32>)
    ensures
        data@.len() <= usize::MAX,
        pos + 4 <= data@.len() <==> r is Some,
        r is Some ==> r->Some_0 as nat == le_value(data@, pos as int, 4),
{
    if pos <= data.len() && data.len() - pos >= 4 {
        let v: u32 = data[pos] as u32 + 256 * (data[pos + 1] as u32 + 256 * (data[pos + 2] as u32
            + 256 * (data[pos + 3] as u32)));
        proof {
            reveal_with_fuel(le_value, 5);
        }
        Some(v)
    } else {
        None
    }
}

/// Byte-wise equality of two slices.
pub fn bytes_eq(a: &[u8], b: &[u8]) -> (r: bool)
    ensures
        r == (a@ == b@),
{
    if a.len() != b.len() {
        return false;
    }
    let mut i: usize = 0;
    while i < a.len()
        invariant
            a@.len() == b@.len(),
            i <= a@.len(),
            a@.subrange(0, i as int) == b@.subrange(0, i as int),
        decreases a@.len() - i,
    {
        if a[i] != b[i] {
            assert(a@[i as int] != b@[i as int]);
            return false;
        }
        assert(a@.subrange(0, i + 1) =~= a@.subrange(0, i as int).push(a@[i as int]));
        assert(b@.subrange(0, i + 1) =~= b@.subrange(0, i as int).push(b@[i as int]));
        i = i + 1;
    }
    assert(a@ =~= a@.subrange(0, i as int));
    assert(b@ =~= b@.subrange(0, i as int));
    true
}

/// A copy of a byte vector.
pub fn copy_bytes(v: &Vec<u8>) -> (r: Vec<u8>)
    ensures
        r@ == v@,
{
    let r = v.clone();
    assert(r@ =~= v@);
    r
}

} // verus!
