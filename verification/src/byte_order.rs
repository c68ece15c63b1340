//! Network-byte-order (big-endian) integer encoding used by the wire codec.

use vstd::arithmetic::power::{lemma_pow_increases, pow};
use vstd::prelude::*;

verus! {

/// The number a big-endian byte sequence denotes: the first byte is the
/// most significant.
pub open spec fn be_nat(s: Seq<u8>) -> nat
    decreases s.len(),
{
    if s.len() == 0 {
        0
    } else {
        (be_nat(s.drop_last()) * 256 + s.last()) as nat
    }
}

/// The `count`-byte big-endian encoding of `x` (mod 256^count).
pub open spec fn nat_to_be(x: nat, count: nat) -> Seq<u8>
    decreases count,
{
    if count == 0 {
        Seq::empty()
    } else {
        nat_to_be(x / 256, (count - 1) as nat).push((x % 256) as u8)
    }
}

/// Concrete powers of 256 needed for overflow bounds.
pub proof fn lemma_pow256_values()
    ensures
        pow(256, 2) == 0x10000,
        pow(256, 4) == 0x100000000,
        pow(256, 7) == 0x100000000000000,
        pow(256, 8) == 0x10000000000000000,
        pow(256, 15) == 0x1000000000000000000000000000000,
        pow(256, 16) == 0x100000000000000000000000000000000,
{
    reveal(pow);
    assert(pow(256, 0) == 1);
    assert(pow(256, 1) == 256);
    assert(pow(256, 2) == 0x10000);
    assert(pow(256, 3) == 0x1000000);
    assert(pow(256, 4) == 0x100000000);
    assert(pow(256, 5) == 0x10000000000);
    assert(pow(256, 6) == 0x1000000000000);
    assert(pow(256, 7) == 0x100000000000000);
    assert(pow(256, 8) == 0x10000000000000000);
    assert(pow(256, 9) == 0x1000000000000000000);
    assert(pow(256, 10) == 0x100000000000000000000);
    assert(pow(256, 11) == 0x10000000000000000000000);
    assert(pow(256, 12) == 0x1000000000000000000000000);
    assert(pow(256, 13) == 0x100000000000000000000000000);
    assert(pow(256, 14) == 0x10000000000000000000000000000);
    assert(pow(256, 15) == 0x1000000000000000000000000000000);
    assert(pow(256, 16) == 0x100000000000000000000000000000000);
}

/// An encoding has exactly the asked-for width.
pub proof fn lemma_nat_to_be_len(x: nat, count: nat)
    ensures
        nat_to_be(x, count).len() == count,
    decreases count,
{
    if count > 0 {
        lemma_nat_to_be_len(x / 256, (count - 1) as nat);
    }
}

/// A big-endian sequence of `n` bytes denotes a number below 256^n.
pub proof fn lemma_be_nat_bound(s: Seq<u8>)
    ensures
        be_nat(s) < pow(256, s.len()),
    decreases s.len(),
{
    reveal(pow);
    if s.len() == 0 {
    } else {
        lemma_be_nat_bound(s.drop_last());
        assert(pow(256, s.len()) == 256 * pow(256, (s.len() - 1) as nat));
        assert(be_nat(s.drop_last()) * 256 <= (pow(256, (s.len() - 1) as nat) - 1) * 256);
    }
}

/// Decoding inverts encoding: reading back the `count`-byte encoding of a
/// number below 256^count yields that number.
pub proof fn lemma_be_nat_of_nat_to_be(x: nat, count: nat)
    requires
        x < pow(256, count),
    ensures
        nat_to_be(x, count).len() == count,
        be_nat(nat_to_be(x, count)) == x,
    decreases count,
{
    reveal(pow);
    if count == 0 {
    } else {
        assert(pow(256, count) == 256 * pow(256, (count - 1) as nat));
        lemma_be_nat_of_nat_to_be(x / 256, (count - 1) as nat);
        let s = nat_to_be(x, count);
        assert(s.drop_last() =~= nat_to_be(x / 256, (count - 1) as nat));
    }
}

/// Encoding inverts decoding: the number a byte sequence denotes encodes
/// back to the same bytes.
pub proof fn lemma_nat_to_be_of_be_nat(s: Seq<u8>)
    ensures
        nat_to_be(be_nat(s), s.len()) == s,
    decreases s.len(),
{
    if s.len() == 0 {
        assert(nat_to_be(be_nat(s), s.len()) =~= s);
    } else {
        lemma_nat_to_be_of_be_nat(s.drop_last());
        let x = be_nat(s);
        assert(x == be_nat(s.drop_last()) * 256 + s.last());
        assert(x % 256 == s.last() && x / 256 == be_nat(s.drop_last())) by {
            assert(s.last() < 256);
        }
        assert(nat_to_be(x, s.len()) =~= s);
    }
}

/// Reads `count` bytes starting at `start` as a big-endian number.
pub fn read_be(s: &[u8], start: usize, count: usize) -> (r: u64)
    requires
        count <= 8,
        start + count <= s@.len(),
    ensures
        r == be_nat(s@.subrange(start as int, start + count)),
{
    let n: usize = s.len();
    let mut acc: u64 = 0;
    let mut i: usize = 0;
    proof {
        assert(s@.subrange(start as int, start as int) =~= Seq::<u8>::empty());
    }
    while i < count
        invariant
            i <= count <= 8,
            start + count <= n == s@.len(),
            acc == be_nat(s@.subrange(start as int, start + i)),
        decreases count - i,
    {
        let sub = Ghost(s@.subrange(start as int, start + i));
        proof {
            lemma_be_nat_bound(sub@);
            lemma_pow_increases(256, i as nat, 7);
            lemma_pow256_values();
            assert(s@.subrange(start as int, start + i + 1).drop_last() =~= sub@);
            assert(s@.subrange(start as int, start + i + 1).last() == s@[start + i]);
        }
        acc = acc * 256 + (s[start + i] as u64);
        i = i + 1;
    }
    acc
}

/// Appends the `count`-byte big-endian encoding of `x` to `out`.
pub fn write_be(out: &mut Vec<u8>, x: u64, count: usize)
    requires
        count <= 8,
    ensures
        final(out)@ == old(out)@ + nat_to_be(x as nat, count as nat),
    decreases count,
{
    if count == 0 {
        proof {
            assert(out@ =~= out@ + nat_to_be(x as nat, 0));
        }
    } else {
        write_be(out, x / 256, count - 1);
        out.push((x % 256) as u8);
        proof {
            assert(out@ =~= old(out)@ + nat_to_be(x as nat, count as nat));
        }
    }
}

/// Reads `count` bytes starting at `start` as a big-endian number wide
/// enough for an IPv6 address.
pub fn read_be_wide(s: &[u8], start: usize, count: usize) -> (r: u128)
    requires
        count <= 16,
        start + count <= s@.len(),
    ensures
        r == be_nat(s@.subrange(start as int, start + count)),
{
    let n: usize = s.len();
    let mut acc: u128 = 0;
    let mut i: usize = 0;
    proof {
        assert(s@.subrange(start as int, start as int) =~= Seq::<u8>::empty());
    }
    while i < count
        invariant
            i <= count <= 16,
            start + count <= n == s@.len(),
            acc == be_nat(s@.subrange(start as int, start + i)),
        decreases count - i,
    {
        let sub = Ghost(s@.subrange(start as int, start + i));
        proof {
            lemma_be_nat_bound(sub@);
            lemma_pow_increases(256, i as nat, 15);
            lemma_pow256_values();
            assert(s@.subrange(start as int, start + i + 1).drop_last() =~= sub@);
            assert(s@.subrange(start as int, start + i + 1).last() == s@[start + i]);
        }
        acc = acc * 256 + (s[start + i] as u128);
        i = i + 1;
    }
    acc
}

/// Appends the `count`-byte big-endian encoding of `x` to `out`, for
/// values wide enough for an IPv6 address.
pub fn write_be_wide(out: &mut Vec<u8>, x: u128, count: usize)
    requires
        count <= 16,
    ensures
        final(out)@ == old(out)@ + nat_to_be(x as nat, count as nat),
    decreases count,
{
    if count == 0 {
        proof {
            assert(out@ =~= out@ + nat_to_be(x as nat, 0));
        }
    } else {
        write_be_wide(out, x / 256, count - 1);
        out.push((x % 256) as u8);
        proof {
            assert(out@ =~= old(out)@ + nat_to_be(x as nat, count as nat));
        }
    }
}

} // verus!
