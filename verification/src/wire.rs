//! Big-endian integers in byte sequences.

use vstd::prelude::*;

verus! {

/// The number that `bytes` stands for, most significant byte first.
pub open spec fn be(bytes: Seq<u8>) -> nat
    decreases bytes.len(),
{
    if bytes.len() == 0 {
        0
    } else {
        be(bytes.drop_last()) * 256 + bytes.last() as nat
    }
}

/// The last `len` base-256 digits of `n`, most significant first.
pub open spec fn be_bytes(n: nat, len: nat) -> Seq<u8>
    decreases len,
{
    if len == 0 {
        Seq::empty()
    } else {
        be_bytes(n / 256, (len - 1) as nat).push((n % 256) as u8)
    }
}

/// The number of values that `len` bytes can hold.
pub open spec fn byte_range(len: nat) -> nat
    decreases len,
{
    if len == 0 {
        1
    } else {
        256 * byte_range((len - 1) as nat)
    }
}

pub proof fn lemma_be_bytes_len(n: nat, len: nat)
    ensures
        be_bytes(n, len).len() == len,
    decreases len,
{
    if len > 0 {
        lemma_be_bytes_len(n / 256, (len - 1) as nat);
    }
}

/// Reading back what was written.
pub proof fn lemma_be_round_trip(n: nat, len: nat)
    requires
        n < byte_range(len),
    ensures
        be(be_bytes(n, len)) == n,
    decreases len,
{
    lemma_be_bytes_len(n, len);
    if len > 0 {
        let shorter = be_bytes(n / 256, (len - 1) as nat);
        assert(be_bytes(n, len).drop_last() =~= shorter);
        lemma_be_round_trip(n / 256, (len - 1) as nat);
    }
}

/// The bytes determine, and are determined by, the number they stand for.
pub proof fn lemma_be_inverse(bytes: Seq<u8>)
    ensures
        be_bytes(be(bytes), bytes.len()) == bytes,
        be(bytes) < byte_range(bytes.len()),
    decreases bytes.len(),
{
    if bytes.len() > 0 {
        lemma_be_inverse(bytes.drop_last());
        let high = be(bytes.drop_last());
        let n = high * 256 + bytes.last() as nat;
        assert(n / 256 == high && n % 256 == bytes.last());
        assert(bytes.drop_last().push(bytes.last()) =~= bytes);
    }
}

pub proof fn lemma_byte_ranges()
    ensures
        byte_range(1) == 0x100,
        byte_range(2) == 0x1_0000,
        byte_range(3) == 0x100_0000,
        byte_range(4) == 0x1_0000_0000,
        byte_range(8) == 0x1_0000_0000_0000_0000,
{
    reveal_with_fuel(byte_range, 9);
}

/// Appends the last `len` base-256 digits of `n`.
pub fn put_be(buf: &mut Vec<u8>, n: u64, len: usize)
    ensures
        final(buf)@ == old(buf)@ + be_bytes(n as nat, len as nat),
    decreases len,
{
    if len > 0 {
        put_be(buf, n / 256, len - 1);
        buf.push((n % 256) as u8);
    }
    assert(buf@ =~= old(buf)@ + be_bytes(n as nat, len as nat));
}

/// Reads `len` bytes, starting with the one at `at`, as a number.
pub fn get_be(buf: &[u8], at: usize, len: usize) -> (n: u64)
    requires
        at + len <= buf@.len(),
        len <= 8,
    ensures
        n == be(buf@.subrange(at as int, at + len)),
        n < byte_range(len as nat),
{
    let mut n: u64 = 0;
    let mut i: usize = 0;
    assert(buf.len() <= usize::MAX);
    assert(buf@.subrange(at as int, at as int) =~= Seq::<u8>::empty());
    while i < len
        invariant
            i <= len <= 8,
            at + len <= buf@.len() <= usize::MAX,
            n == be(buf@.subrange(at as int, at + i)),
            n < byte_range(i as nat),
        decreases len - i,
    {
        proof {
            let longer = buf@.subrange(at as int, at + i + 1);
            assert(longer.drop_last() =~= buf@.subrange(at as int, at + i));
            lemma_be_inverse(longer);
            lemma_byte_range_grows((i + 1) as nat, 8);
            lemma_byte_ranges();
        }
        n = n * 256 + buf[at + i] as u64;
        i = i + 1;
    }
    n
}

proof fn lemma_byte_range_grows(a: nat, b: nat)
    requires
        a <= b,
    ensures
        0 < byte_range(a) <= byte_range(b),
    decreases b,
{
    if b > 0 {
        if a < b {
            lemma_byte_range_grows(a, (b - 1) as nat);
        } else {
            lemma_byte_range_grows((b - 1) as nat, (b - 1) as nat);
        }
    }
}

/// Appends the bytes of `other`.
pub fn put_bytes(buf: &mut Vec<u8>, other: &[u8])
    ensures
        final(buf)@ == old(buf)@ + other@,
{
    buf.extend_from_slice(other);
    assert(buf@ =~= old(buf)@ + other@);
}

/// A copy of the bytes from `from` up to `to`.
pub fn copy_range(buf: &[u8], from: usize, to: usize) -> (r: Vec<u8>)
    requires
        from <= to <= buf@.len(),
    ensures
        r@ == buf@.subrange(from as int, to as int),
{
    let mut r: Vec<u8> = Vec::new();
    let mut i: usize = from;
    while i < to
        invariant
            from <= i <= to <= buf@.len(),
            r@ == buf@.subrange(from as int, i as int),
        decreases to - i,
    {
        r.push(buf[i]);
        i = i + 1;
        assert(r@ =~= buf@.subrange(from as int, i as int));
    }
    r
}

} // verus!
