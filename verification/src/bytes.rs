//! Numbers from bytes, the least significant byte first.
use vstd::arithmetic::power::{lemma_pow0, lemma_pow1, lemma_pow_adds, pow};
use vstd::prelude::*;

use crate::stream::InputStream;

verus! {

/// The number that the bytes stand for.
pub open spec fn le_value(bytes: Seq<u8>) -> nat
    decreases bytes.len(),
{
    if bytes.len() == 0 {
        0
    } else {
        bytes[0] as nat + 256 * le_value(bytes.skip(1))
    }
}

/// How many numbers `n` bytes can stand for.
spec fn le_bound(n: nat) -> nat
    decreases n,
{
    if n == 0 {
        1
    } else {
        256 * le_bound((n - 1) as nat)
    }
}

proof fn lemma_le_value_bound(bytes: Seq<u8>)
    ensures
        le_value(bytes) < le_bound(bytes.len()),
    decreases bytes.len(),
{
    if bytes.len() > 0 {
        lemma_le_value_bound(bytes.skip(1));
    }
}

proof fn lemma_le_bound_monotonic(n: nat, m: nat)
    requires
        n <= m,
    ensures
        le_bound(n) <= le_bound(m),
    decreases m,
{
    if n < m {
        lemma_le_bound_monotonic(n, (m - 1) as nat);
    }
}

/// The number that at most 16 bytes stand for.
pub fn from_le_bytes(bytes: &[u8]) -> (value: u128)
    requires
        bytes@.len() <= 16,
    ensures
        value == le_value(bytes@),
{
    let mut value: u128 = 0;
    let mut i: usize = bytes.len();
    assert(bytes@.skip(i as int) =~= Seq::empty());
    while i > 0
        invariant
            i <= bytes@.len() <= 16,
            value == le_value(bytes@.skip(i as int)),
        decreases i,
    {
        i = i - 1;
        proof {
            let rest = bytes@.skip(i as int);
            assert(rest.skip(1) =~= bytes@.skip(i + 1));
            lemma_le_value_bound(rest);
            lemma_le_bound_monotonic(rest.len(), 16);
            reveal_with_fuel(le_bound, 17);
            assert(le_bound(16) == 0x1_0000_0000_0000_0000_0000_0000_0000_0000);
        }
        let digit: u128 = bytes[i] as u128;
        value = digit + 256 * value;
    }
    assert(bytes@.skip(0) =~= bytes@);
    value
}

/// Reads a number of 16 bytes; bytes beyond the end of the stream are zero.
pub fn read_u128(stream: &mut InputStream) -> (value: u128)
    ensures
        value == le_value(crate::stream::read_bytes(old(stream)@, 16)),
        final(stream)@ == old(stream)@.skip(crate::stream::read_count(old(stream)@, 16) as int),
{
    let mut bytes: [u8; 16] = [0; 16];
    stream.read(&mut bytes);
    from_le_bytes(&bytes)
}

/// Reads a number of 2 bytes; bytes beyond the end of the stream are zero.
pub fn read_u16(stream: &mut InputStream) -> (value: u16)
    ensures
        value == le_value(crate::stream::read_bytes(old(stream)@, 2)),
        final(stream)@ == old(stream)@.skip(crate::stream::read_count(old(stream)@, 2) as int),
{
    let mut bytes: [u8; 2] = [0; 2];
    stream.read(&mut bytes);
    let value: u128 = from_le_bytes(&bytes);
    proof {
        lemma_le_value_bound(bytes@);
        reveal_with_fuel(le_bound, 3);
        assert(le_bound(2) == 0x1_0000);
    }
    value as u16
}

/// The bytes are the digits of the number in base 256, the first one the lowest: no bytes stand for
/// zero, and one more byte at the end counts 256 to the power of how many come before it.
pub proof fn law_bytes_are_digits(bytes: Seq<u8>, digit: u8)
    ensures
        le_value(Seq::<u8>::empty()) == 0,
        le_value(bytes.push(digit)) == le_value(bytes) + digit * pow(256, bytes.len()),
    decreases bytes.len(),
{
    if bytes.len() == 0 {
        lemma_pow0(256);
        assert(bytes.push(digit).skip(1) =~= bytes);
        assert(digit * pow(256, 0) == digit) by (nonlinear_arith)
            requires
                pow(256, 0) == 1,
        ;
    } else {
        let rest = bytes.skip(1);
        law_bytes_are_digits(rest, digit);
        assert(bytes.push(digit).skip(1) =~= rest.push(digit));
        lemma_pow1(256);
        lemma_pow_adds(256, 1, rest.len());
        let power = pow(256, rest.len());
        assert(256 * (digit * power) == digit * (256 * power)) by (nonlinear_arith);
    }
}

/// Different bytes stand for different numbers, and every number is below 256 to the power of how
/// many bytes there are.
pub proof fn law_numbers_tell_their_bytes(a: Seq<u8>, b: Seq<u8>)
    requires
        a.len() == b.len(),
    ensures
        le_value(a) == le_value(b) ==> a == b,
        le_value(a) < pow(256, a.len()),
    decreases a.len(),
{
    if a.len() == 0 {
        lemma_pow0(256);
        assert(a =~= b);
    } else {
        law_numbers_tell_their_bytes(a.skip(1), b.skip(1));
        lemma_pow1(256);
        lemma_pow_adds(256, 1, a.skip(1).len());
        if le_value(a) == le_value(b) {
            assert(a[0] == b[0]);
            assert(a.skip(1) == b.skip(1));
            assert(a =~= seq![a[0]] + a.skip(1));
            assert(b =~= seq![b[0]] + b.skip(1));
        }
    }
}

} // verus!
