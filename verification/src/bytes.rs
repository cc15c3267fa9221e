//! Byte strings and little-endian numbers.

use vstd::prelude::*;

verus! {

/// A number in four bytes, least significant first; what does not fit is lost.
pub open spec fn le32(n: nat) -> Seq<u8> {
    seq![
        (n % 256) as u8,
        (n / 0x100 % 256) as u8,
        (n / 0x1_0000 % 256) as u8,
        (n / 0x100_0000 % 256) as u8,
    ]
}

/// The number that four bytes write, least significant first.
pub open spec fn le32_value(b: Seq<u8>) -> nat {
    (b[0] + 0x100 * b[1] + 0x1_0000 * b[2] + 0x100_0000 * b[3]) as nat
}

/// A number in eight bytes, least significant first.
pub open spec fn le64(n: u64) -> Seq<u8> {
    le32((n % 0x1_0000_0000) as nat) + le32((n / 0x1_0000_0000) as nat)
}

/// Appends bytes.
pub fn push_bytes(out: &mut Vec<u8>, bytes: &[u8])
    ensures
        final(out)@ == old(out)@ + bytes@,
{
    let ghost before = out@;
    for i in 0..bytes.len()
        invariant
            out@ == before + bytes@.take(i as int),
    {
        out.push(bytes[i]);
        proof {
            assert(out@ =~= before + bytes@.take(i + 1));
        }
    }
    proof {
        assert(bytes@.take(bytes@.len() as int) =~= bytes@);
    }
}

/// Appends a number in four bytes, least significant first.
pub fn push_le32(out: &mut Vec<u8>, n: u64)
    ensures
        final(out)@ == old(out)@ + le32(n as nat),
{
    out.push((n % 256) as u8);
    out.push((n / 0x100 % 256) as u8);
    out.push((n / 0x1_0000 % 256) as u8);
    out.push((n / 0x100_0000 % 256) as u8);
    proof {
        assert(out@ =~= old(out)@ + le32(n as nat));
    }
}

/// The bytes of a number, put together again, are the number, as far as they reach: each
/// counts 256 times as much as the one before.
pub proof fn law_bytes_add_up(n: u64)
    ensures
        le32(n as nat).len() == 4,
        le32_value(le32(n as nat)) == n % 0x1_0000_0000,
        le64(n).len() == 8,
        le32_value(le64(n).take(4)) + 0x1_0000_0000 * le32_value(le64(n).skip(4)) == n,
{
    let low = n as nat % 0x1_0000_0000;
    let high = n as nat / 0x1_0000_0000;
    lemma_le32(low);
    lemma_le32(high);
    lemma_le32_low(n as nat);
    assert(le64(n).take(4) =~= le32(low));
    assert(le64(n).skip(4) =~= le32(high));
}

pub proof fn lemma_le64_apart(a: u64, b: u64)
    requires
        le64(a) == le64(b),
    ensures
        a == b,
{
    law_bytes_add_up(a);
    law_bytes_add_up(b);
}

/// The bytes of a number, each on its own.
pub proof fn lemma_le64(n: u64)
    ensures
        le64(n) == seq![
            (n as nat % 256) as u8,
            (n as nat / 0x100 % 256) as u8,
            (n as nat / 0x1_0000 % 256) as u8,
            (n as nat / 0x100_0000 % 256) as u8,
            (n as nat / 0x1_0000_0000 % 256) as u8,
            (n as nat / 0x100_0000_0000 % 256) as u8,
            (n as nat / 0x1_0000_0000_0000 % 256) as u8,
            (n as nat / 0x100_0000_0000_0000 % 256) as u8,
        ],
{
    let high = n as nat / 0x1_0000_0000;
    lemma_le32_low(n as nat);
    lemma_high_bytes(n as nat);
    assert(le64(n) =~= le32(n as nat) + le32(high));
}

proof fn lemma_high_bytes(n: nat)
    ensures
        n / 0x1_0000_0000 / 0x100 == n / 0x100_0000_0000,
        n / 0x1_0000_0000 / 0x1_0000 == n / 0x1_0000_0000_0000,
        n / 0x1_0000_0000 / 0x100_0000 == n / 0x100_0000_0000_0000,
{
}

proof fn lemma_le32_low(n: nat)
    ensures
        le32(n) == le32(n % 0x1_0000_0000),
{
    let low = n % 0x1_0000_0000;
    assert(n % 256 == low % 256);
    assert(n / 0x100 % 256 == low / 0x100 % 256);
    assert(n / 0x1_0000 % 256 == low / 0x1_0000 % 256);
    assert(n / 0x100_0000 % 256 == low / 0x100_0000 % 256);
}

pub proof fn lemma_le32(n: nat)
    requires
        n < 0x1_0000_0000,
    ensures
        le32_value(le32(n)) == n,
{
    let b = le32(n);
    assert(n / 0x100 / 0x100 == n / 0x1_0000);
    assert(n / 0x1_0000 / 0x100 == n / 0x100_0000);
}

} // verus!
