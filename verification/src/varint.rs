//! Zig-zag mapping of signed integers and the base-128 variable-length
//! integer layout used by the wire format: seven bits per byte, least
//! significant group first, continuation bit set on every byte but the last.
use vstd::prelude::*;

verus! {

/// Zig-zag mapping from a signed 64-bit integer to an unsigned one:
/// small magnitudes map to small unsigned values.
pub open spec fn zigzag64(n: i64) -> u64 {
    if n >= 0 {
        (2 * (n as int)) as u64
    } else {
        (-2 * (n as int) - 1) as u64
    }
}

/// Inverse of the zig-zag mapping.
pub open spec fn unzigzag64(u: u64) -> i64 {
    if u % 2 == 0 {
        ((u as int) / 2) as i64
    } else {
        ((-((u as int) + 1)) / 2) as i64
    }
}

pub broadcast proof fn lemma_zigzag64_roundtrip(n: i64)
    ensures
        unzigzag64(#[trigger] zigzag64(n)) == n,
{
}

pub broadcast proof fn lemma_unzigzag64_roundtrip(u: u64)
    ensures
        zigzag64(#[trigger] unzigzag64(u)) == u,
{
}

/// The byte sequence of the base-128 varint encoding of `u`.
pub open spec fn varint_seq(u: u64) -> Seq<u8>
    decreases u,
{
    if u < 128 {
        seq![u as u8]
    } else {
        seq![(u % 128 + 128) as u8] + varint_seq(u / 128)
    }
}

/// Number of bytes of the varint encoding of `u`.
pub open spec fn varint_len(u: u64) -> nat
    decreases u,
{
    if u < 128 {
        1
    } else {
        1 + varint_len(u / 128)
    }
}

/// 128 raised to `k`, as a mathematical integer.
pub open spec fn pow128(k: nat) -> int
    decreases k,
{
    if k == 0 {
        1
    } else {
        128 * pow128((k - 1) as nat)
    }
}

/// Values below `128^k` need at most `k` varint bytes.
pub proof fn lemma_varint_len_bound(u: u64, k: nat)
    requires
        k >= 1,
        (u as int) < pow128(k),
    ensures
        varint_len(u) <= k,
    decreases k,
{
    if u >= 128 {
        assert(pow128(k) == 128 * pow128((k - 1) as nat));
        lemma_varint_len_bound(u / 128, (k - 1) as nat);
    }
}

/// A value needing more than `k >= 1` varint bytes is at least `128^k`.
pub proof fn lemma_varint_len_lower(u: u64, k: nat)
    requires
        k >= 1,
        varint_len(u) > k,
    ensures
        (u as int) >= pow128(k),
    decreases k,
{
    assert(u >= 128);
    if k == 1 {
        assert(pow128(1) == 128 * pow128(0));
        assert(pow128(0) == 1);
    } else {
        lemma_varint_len_lower(u / 128, (k - 1) as nat);
        let q = (u / 128) as int;
        assert(u as int >= 128 * q);
        assert(128 * q >= 128 * pow128((k - 1) as nat)) by (nonlinear_arith)
            requires
                q >= pow128((k - 1) as nat),
        ;
        assert(pow128(k) == 128 * pow128((k - 1) as nat));
    }
}

pub broadcast proof fn lemma_varint_seq_len(u: u64)
    ensures
        (#[trigger] varint_seq(u)).len() == varint_len(u),
        1 <= varint_seq(u).len() <= 10,
    decreases u,
{
    if u >= 128 {
        lemma_varint_seq_len(u / 128);
    }
    assert(pow128(10) > u64::MAX as int) by {
        reveal_with_fuel(pow128, 11);
    }
    lemma_varint_len_bound(u, 10);
}

/// The varint encoding is minimal: `k` bytes are used only when `k - 1`
/// bytes cannot carry the value.
pub proof fn lemma_varint_minimal(u: u64)
    ensures
        (u as int) < pow128(varint_len(u)),
        varint_len(u) > 1 ==> (u as int) >= pow128((varint_len(u) - 1) as nat),
    decreases u,
{
    if u < 128 {
        assert(varint_len(u) == 1);
        assert(pow128(1) == 128 * pow128(0));
        assert(pow128(0) == 1);
    } else {
        lemma_varint_minimal(u / 128);
        lemma_varint_len_lower(u, (varint_len(u) - 1) as nat);
        let q = (u / 128) as int;
        assert(u as int <= 128 * q + 127);
        assert(q + 1 <= pow128(varint_len(u / 128)));
        assert(128 * (q + 1) <= 128 * pow128(varint_len(u / 128))) by (nonlinear_arith)
            requires
                q + 1 <= pow128(varint_len(u / 128)),
        ;
        assert((u as int) < 128 * (q + 1));
        assert(varint_len(u) == 1 + varint_len(u / 128));
        assert(pow128(varint_len(u)) == 128 * pow128(varint_len(u / 128)));
    }
}

/// Append the varint encoding of `u` to `buf`.
pub fn write_varint(u: u64, buf: &mut Vec<u8>)
    ensures
        final(buf)@ == old(buf)@ + varint_seq(u),
{
    let mut x: u64 = u;
    let ghost prefix: Seq<u8> = buf@;
    while x >= 128
        invariant
            prefix + varint_seq(u) =~= buf@ + varint_seq(x),
        decreases x,
    {
        proof {
            assert(varint_seq(x) == seq![(x % 128 + 128) as u8] + varint_seq(x / 128));
        }
        buf.push((x % 128 + 128) as u8);
        x = x / 128;
    }
    proof {
        assert(varint_seq(x) == seq![x as u8]);
    }
    buf.push(x as u8);
    proof {
        assert(buf@ =~= prefix + varint_seq(u));
    }
}

/// Append the zig-zag varint encoding of a signed 64-bit integer.
pub fn write_long(n: i64, buf: &mut Vec<u8>)
    ensures
        final(buf)@ == old(buf)@ + varint_seq(zigzag64(n)),
{
    let u: u64 = if n >= 0 {
        2 * (n as u64)
    } else {
        let m: u64 = (-(n + 1)) as u64;
        2 * m + 1
    };
    write_varint(u, buf);
}

/// Append the zig-zag varint encoding of a signed 32-bit integer.
pub fn write_int(n: i32, buf: &mut Vec<u8>)
    ensures
        final(buf)@ == old(buf)@ + varint_seq(zigzag64(n as i64)),
{
    write_long(n as i64, buf);
}

} // verus!
