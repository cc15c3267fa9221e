//! Big-endian base-256 numbers.

use vstd::prelude::*;

verus! {

/// The number that the bytes write, most significant byte first.
pub open spec fn be_value(bytes: Seq<u8>) -> nat
    decreases bytes.len(),
{
    if bytes.len() == 0 {
        0
    } else {
        be_value(bytes.drop_last()) * 256 + bytes.last() as nat
    }
}

/// The last `n` base-256 digits of `value`, most significant first.
pub open spec fn be_bytes(value: nat, n: nat) -> Seq<u8>
    decreases n,
{
    if n == 0 {
        Seq::empty()
    } else {
        be_bytes(value / 256, (n - 1) as nat).push((value % 256) as u8)
    }
}

/// `value` without its last `n` base-256 digits.
pub open spec fn drop_digits(value: nat, n: nat) -> nat
    decreases n,
{
    if n == 0 {
        value
    } else {
        drop_digits(value, (n - 1) as nat) / 256
    }
}

pub proof fn lemma_drop_digits_first(value: nat, n: nat)
    requires
        n > 0,
    ensures
        drop_digits(value, n) == drop_digits(value / 256, (n - 1) as nat),
    decreases n,
{
    reveal_with_fuel(drop_digits, 2);
    if n > 1 {
        lemma_drop_digits_first(value, (n - 1) as nat);
    }
}

pub proof fn lemma_be_bytes_len(value: nat, n: nat)
    ensures
        be_bytes(value, n).len() == n,
    decreases n,
{
    if n > 0 {
        lemma_be_bytes_len(value / 256, (n - 1) as nat);
    }
}

/// Each byte is the last digit of what is left of the number at that place.
pub proof fn lemma_be_bytes_index(value: nat, n: nat, i: int)
    requires
        0 <= i < n,
    ensures
        be_bytes(value, n).len() == n,
        be_bytes(value, n)[i] == drop_digits(value, (n - 1 - i) as nat) % 256,
    decreases n,
{
    lemma_be_bytes_len(value, n);
    lemma_be_bytes_len(value / 256, (n - 1) as nat);
    if i < n - 1 {
        lemma_be_bytes_index(value / 256, (n - 1) as nat, i);
        lemma_drop_digits_first(value, (n - 1 - i) as nat);
    }
}

/// A byte string is the digits of the number it writes.
pub proof fn lemma_be_value_bytes(bytes: Seq<u8>)
    ensures
        be_bytes(be_value(bytes), bytes.len()) == bytes,
    decreases bytes.len(),
{
    if bytes.len() > 0 {
        lemma_be_value_bytes(bytes.drop_last());
        let v = be_value(bytes.drop_last());
        assert((v * 256 + bytes.last() as nat) / 256 == v);
        assert((v * 256 + bytes.last() as nat) % 256 == bytes.last());
        assert(bytes.drop_last().push(bytes.last()) =~= bytes);
    } else {
        assert(bytes =~= Seq::empty());
    }
}

pub proof fn lemma_be_value_push(bytes: Seq<u8>, b: u8)
    ensures
        be_value(bytes.push(b)) == be_value(bytes) * 256 + b,
{
    assert(bytes.push(b).drop_last() =~= bytes);
}

/// `256` to the power of `n`.
pub open spec fn power256(n: nat) -> nat
    decreases n,
{
    if n == 0 {
        1
    } else {
        256 * power256((n - 1) as nat)
    }
}

/// The digits of a number that fits them write that number.
pub proof fn lemma_be_value_of_bytes(value: nat, n: nat)
    requires
        value < power256(n),
    ensures
        be_value(be_bytes(value, n)) == value,
    decreases n,
{
    if n > 0 {
        assert(value / 256 < power256((n - 1) as nat));
        lemma_be_value_of_bytes(value / 256, (n - 1) as nat);
        lemma_be_value_push(be_bytes(value / 256, (n - 1) as nat), (value % 256) as u8);
    }
}

/// Adding one to a digit followed by `n` digits 255 carries through all of them.
pub proof fn lemma_carry(prefix: Seq<u8>, digit: u8, n: nat)
    requires
        digit < 255,
    ensures
        be_value(prefix.push((digit + 1) as u8) + Seq::new(n, |i: int| 0u8)) == be_value(
            prefix.push(digit) + Seq::new(n, |i: int| 255u8),
        ) + 1,
    decreases n,
{
    let zeros = Seq::new(n, |i: int| 0u8);
    let full = Seq::new(n, |i: int| 255u8);
    if n == 0 {
        lemma_be_value_push(prefix, digit);
        lemma_be_value_push(prefix, (digit + 1) as u8);
        assert(prefix.push(digit) + full =~= prefix.push(digit));
        assert(prefix.push((digit + 1) as u8) + zeros =~= prefix.push((digit + 1) as u8));
    } else {
        let m = (n - 1) as nat;
        let zeros1 = Seq::new(m, |i: int| 0u8);
        let full1 = Seq::new(m, |i: int| 255u8);
        lemma_carry(prefix, digit, m);
        assert(prefix.push(digit) + full =~= (prefix.push(digit) + full1).push(255u8));
        assert(prefix.push((digit + 1) as u8) + zeros =~= (prefix.push((digit + 1) as u8)
            + zeros1).push(0u8));
        lemma_be_value_push(prefix.push(digit) + full1, 255u8);
        lemma_be_value_push(prefix.push((digit + 1) as u8) + zeros1, 0u8);
    }
}

} // verus!
