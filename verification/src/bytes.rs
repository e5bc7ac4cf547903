//! Small verified helpers on byte vectors and 32-byte digests.

use vstd::prelude::*;

verus! {

/// The big-endian bytes of a 32-bit unsigned value.
pub open spec fn u32_be_spec(v: u32) -> Seq<u8> {
    seq![
        (v / 0x1000000) as u8,
        ((v / 0x10000) % 0x100) as u8,
        ((v / 0x100) % 0x100) as u8,
        (v % 0x100) as u8,
    ]
}

/// Big-endian encoding of a 32-bit value, as `u32::to_be_bytes` yields it.
pub fn u32_be(v: u32) -> (r: Vec<u8>)
    ensures
        r@ == u32_be_spec(v),
{
    let mut r: Vec<u8> = Vec::new();
    r.push((v / 0x1000000) as u8);
    r.push(((v / 0x10000) % 0x100) as u8);
    r.push(((v / 0x100) % 0x100) as u8);
    r.push((v % 0x100) as u8);
    proof {
        assert(r@ =~= u32_be_spec(v));
    }
    r
}

/// Byte-for-byte equality of two vectors.
pub fn bytes_eq(a: &Vec<u8>, b: &Vec<u8>) -> (r: bool)
    ensures
        r == (a@ == b@),
{
    if a.len() != b.len() {
        proof {
            assert(a@ != b@);
        }
        return false;
    }
    let mut i: usize = 0;
    while i < a.len()
        invariant
            i <= a.len(),
            a.len() == b.len(),
            forall|j: int| 0 <= j < i ==> a@[j] == b@[j],
        decreases a.len() - i,
    {
        if a[i] != b[i] {
            return false;
        }
        i += 1;
    }
    proof {
        assert(a@ =~= b@);
    }
    true
}

/// Byte-for-byte equality of two 32-byte digests.
pub fn digest_eq(a: &[u8; 32], b: &[u8; 32]) -> (r: bool)
    ensures
        r == (a@ == b@),
{
    let mut i: usize = 0;
    while i < 32
        invariant
            i <= 32,
            forall|j: int| 0 <= j < i ==> a@[j] == b@[j],
        decreases 32 - i,
    {
        if a[i] != b[i] {
            return false;
        }
        i += 1;
    }
    proof {
        assert(a@ =~= b@);
    }
    true
}

/// The all-zeros digest, reserved to mean "no parent".
pub open spec fn zero_digest() -> Seq<u8> {
    Seq::<u8>::new(32, |i: int| 0u8)
}

/// Whether a digest is the all-zeros sentinel that marks "no parent".
pub fn is_zero_digest(a: &[u8; 32]) -> (r: bool)
    ensures
        r == (a@ == zero_digest()),
{
    let mut i: usize = 0;
    while i < 32
        invariant
            i <= 32,
            forall|j: int| 0 <= j < i ==> a@[j] == 0u8,
        decreases 32 - i,
    {
        if a[i] != 0 {
            return false;
        }
        i += 1;
    }
    proof {
        assert(a@ =~= zero_digest());
    }
    true
}

/// Appends the bytes of a fixed digest to a growing buffer.
pub fn extend_digest(buf: &mut Vec<u8>, d: &[u8; 32])
    ensures
        final(buf)@ == old(buf)@ + d@,
{
    let ghost orig = buf@;
    let mut i: usize = 0;
    while i < 32
        invariant
            i <= 32,
            buf@ == orig + d@.take(i as int),
        decreases 32 - i,
    {
        buf.push(d[i]);
        proof {
            assert(orig + d@.take(i as int) + seq![d@[i as int]] =~= orig + d@.take(i + 1));
        }
        i += 1;
    }
    proof {
        assert(d@.take(32) =~= d@);
    }
}

/// Appends a byte vector to a growing buffer.
pub fn extend_bytes(buf: &mut Vec<u8>, b: &Vec<u8>)
    ensures
        final(buf)@ == old(buf)@ + b@,
{
    let ghost orig = buf@;
    let mut i: usize = 0;
    while i < b.len()
        invariant
            i <= b.len(),
            buf@ == orig + b@.take(i as int),
        decreases b.len() - i,
    {
        buf.push(b[i]);
        proof {
            assert(orig + b@.take(i as int) + seq![b@[i as int]] =~= orig + b@.take(i + 1));
        }
        i += 1;
    }
    proof {
        assert(b@.take(b@.len() as int) =~= b@);
    }
}

/// Copies a byte vector.
pub fn copy_bytes(b: &Vec<u8>) -> (r: Vec<u8>)
    ensures
        r@ == b@,
{
    let mut r: Vec<u8> = Vec::new();
    extend_bytes(&mut r, b);
    proof {
        assert(Seq::<u8>::empty() + b@ =~= b@);
    }
    r
}

} // verus!
