//! Variable-length encoding of 32-bit integers.
//!
//! An unsigned value is written seven bits at a time, least significant group
//! first; every byte but the last has its high bit set. At most five bytes are
//! used, and the fifth may hold only the four remaining bits. Signed values are
//! first mapped to unsigned ones by zig-zag: 0, -1, 1, -2, ... become 0, 1, 2, 3, ...
use vstd::prelude::*;

use crate::error::Error;

verus! {

/// The zig-zag image of a signed value.
pub open spec fn zigzag(v: int) -> int {
    if v >= 0 {
        2 * v
    } else {
        -2 * v - 1
    }
}

/// The inverse of `zigzag`.
pub open spec fn unzigzag(u: int) -> int {
    if u % 2 == 0 {
        u / 2
    } else {
        -(u / 2) - 1
    }
}

/// The bytes that encode an unsigned value.
pub open spec fn var_uint_bytes(u: nat) -> Seq<u8>
    decreases u,
{
    if u < 128 {
        seq![u as u8]
    } else {
        seq![(u % 128 + 128) as u8] + var_uint_bytes(u / 128)
    }
}

/// The bytes that encode a signed 32-bit value.
pub open spec fn var_int32_bytes(v: i32) -> Seq<u8> {
    var_uint_bytes(zigzag(v as int) as nat)
}

/// The largest value (exclusive) that `m` remaining bytes may carry.
pub open spec fn group_bound(m: nat) -> nat
    decreases m,
{
    if m <= 1 {
        16
    } else {
        128 * group_bound((m - 1) as nat)
    }
}

/// Decodes an unsigned value from the front of `b`, allowing at most `m`
/// bytes: the value and the number of bytes consumed, or the failure.
pub open spec fn parse_var_uint(b: Seq<u8>, m: nat) -> Result<(nat, nat), Error>
    decreases m,
{
    if b.len() == 0 {
        Err(Error::BufferUnderrun)
    } else if m <= 1 {
        if b[0] < 16 {
            Ok((b[0] as nat, 1))
        } else {
            Err(Error::VarIntOverflow)
        }
    } else if b[0] < 128 {
        Ok((b[0] as nat, 1))
    } else {
        match parse_var_uint(b.drop_first(), (m - 1) as nat) {
            Ok((u, n)) => Ok(((b[0] - 128) as nat + 128 * u, n + 1)),
            Err(e) => Err(e),
        }
    }
}

/// Decodes a signed 32-bit value from the front of `b`.
pub open spec fn parse_var_int32(b: Seq<u8>) -> Result<(i32, nat), Error> {
    match parse_var_uint(b, 5) {
        Ok((u, n)) => Ok((unzigzag(u as int) as i32, n)),
        Err(e) => Err(e),
    }
}

proof fn lemma_group_bound_5()
    ensures
        group_bound(5) == 0x1_0000_0000,
{
    reveal_with_fuel(group_bound, 5);
}

/// Decoding reads back what encoding wrote, whatever follows it.
proof fn lemma_var_uint_round_trip(u: nat, m: nat, rest: Seq<u8>)
    requires
        1 <= m,
        u < group_bound(m),
    ensures
        var_uint_bytes(u).len() <= m,
        parse_var_uint(var_uint_bytes(u) + rest, m) == Ok::<(nat, nat), Error>(
            (u, var_uint_bytes(u).len()),
        ),
    decreases m,
{
    let b = var_uint_bytes(u) + rest;
    if m <= 1 {
        assert(b[0] == u as u8);
    } else if u < 128 {
        assert(b[0] == u as u8);
    } else {
        let t = var_uint_bytes(u / 128);
        assert(group_bound(m) == 128 * group_bound((m - 1) as nat));
        assert(u / 128 < group_bound((m - 1) as nat));
        lemma_var_uint_round_trip(u / 128, (m - 1) as nat, rest);
        assert(b.drop_first() =~= t + rest);
        assert(b[0] == (u % 128 + 128) as u8);
    }
}

/// Decoding never yields a value of more than 32 bits nor consumes more than
/// five bytes.
proof fn lemma_parse_var_uint_bounds(b: Seq<u8>, m: nat)
    requires
        1 <= m,
    ensures
        parse_var_uint(b, m) matches Ok((u, n)) ==> u < group_bound(m) && 1 <= n <= m && n
            <= b.len(),
    decreases m,
{
    if b.len() > 0 && m > 1 && b[0] >= 128 {
        lemma_parse_var_uint_bounds(b.drop_first(), (m - 1) as nat);
        assert(group_bound(m) == 128 * group_bound((m - 1) as nat));
    } else if m > 1 {
        lemma_group_bound_positive(m);
    }
}

proof fn lemma_group_bound_positive(m: nat)
    ensures
        group_bound(m) >= 128 || m <= 1,
    decreases m,
{
    if m > 1 {
        lemma_group_bound_positive((m - 1) as nat);
    }
}

/// Encoding followed by decoding gives back every signed 32-bit value.
pub proof fn lemma_var_int32_round_trip(v: i32, rest: Seq<u8>)
    ensures
        var_int32_bytes(v).len() <= 5,
        parse_var_int32(var_int32_bytes(v) + rest) == Ok::<(i32, nat), Error>(
            (v, var_int32_bytes(v).len()),
        ),
{
    lemma_group_bound_5();
    let u = zigzag(v as int) as nat;
    lemma_var_uint_round_trip(u, 5, rest);
}

/// Appends the encoding of `v` to `out`.
pub fn write_var_int32(out: &mut Vec<u8>, v: i32)
    ensures
        final(out)@ == old(out)@ + var_int32_bytes(v),
{
    let mut u: u32 = if v >= 0 {
        (v as u32) * 2
    } else {
        let w: i64 = v as i64;
        ((0 - w) * 2 - 1) as u32
    };
    let ghost start = old(out)@;
    assert(var_int32_bytes(v) == var_uint_bytes(u as nat));
    while u >= 128
        invariant
            start + var_int32_bytes(v) == out@ + var_uint_bytes(u as nat),
        decreases u,
    {
        let ghost before = out@;
        out.push((u % 128 + 128) as u8);
        assert(var_uint_bytes(u as nat) == seq![(u % 128 + 128) as u8] + var_uint_bytes(
            (u / 128) as nat,
        ));
        assert(before + var_uint_bytes(u as nat) =~= out@ + var_uint_bytes((u / 128) as nat));
        u = u / 128;
    }
    out.push(u as u8);
    assert(out@ =~= start + var_int32_bytes(v));
}

/// The signed value whose zig-zag image is `u`.
fn unzigzag_exec(u: u32) -> (v: i32)
    ensures
        v as int == unzigzag(u as int),
{
    if u % 2 == 0 {
        (u / 2) as i32
    } else {
        (-((u / 2) as i64) - 1) as i32
    }
}

/// Decodes an unsigned value of at most `m` bytes from `buf` at `pos`.
fn read_var_uint(buf: &[u8], pos: usize, m: usize) -> (r: Result<(u64, usize), Error>)
    requires
        pos <= buf@.len(),
        1 <= m <= 5,
    ensures
        match parse_var_uint(buf@.skip(pos as int), m as nat) {
            Ok((u, n)) => r == Ok::<(u64, usize), Error>((u as u64, n as usize)),
            Err(e) => r == Err::<(u64, usize), Error>(e),
        },
    decreases m,
{
    let ghost b = buf@.skip(pos as int);
    if pos >= buf.len() {
        return Err(Error::BufferUnderrun);
    }
    let byte = buf[pos];
    assert(b[0] == byte);
    if m <= 1 {
        if byte < 16 {
            Ok((byte as u64, 1))
        } else {
            Err(Error::VarIntOverflow)
        }
    } else if byte < 128 {
        Ok((byte as u64, 1))
    } else {
        assert(b.drop_first() =~= buf@.skip(pos + 1));
        match read_var_uint(buf, pos + 1, m - 1) {
            Ok((u, n)) => {
                proof {
                    lemma_parse_var_uint_bounds(buf@.skip(pos + 1), (m - 1) as nat);
                    lemma_group_bound_5();
                    lemma_group_bound_mono((m - 1) as nat);
                }
                Ok(((byte - 128) as u64 + 128 * u, n + 1))
            },
            Err(e) => Err(e),
        }
    }
}

proof fn lemma_group_bound_mono(m: nat)
    requires
        m <= 4,
    ensures
        group_bound(m) <= 0x1000_0000,
{
    reveal_with_fuel(group_bound, 5);
}

/// Decodes a signed 32-bit value from `buf` at `pos`: the value and the
/// number of bytes it took, or the failure.
pub fn read_var_int32(buf: &[u8], pos: usize) -> (r: Result<(i32, usize), Error>)
    requires
        pos <= buf@.len(),
    ensures
        match parse_var_int32(buf@.skip(pos as int)) {
            Ok((v, n)) => r == Ok::<(i32, usize), Error>((v, n as usize)),
            Err(e) => r == Err::<(i32, usize), Error>(e),
        },
{
    match read_var_uint(buf, pos, 5) {
        Ok((u, n)) => {
            proof {
                lemma_parse_var_uint_bounds(buf@.skip(pos as int), 5);
                lemma_group_bound_5();
            }
            let v = unzigzag_exec(u as u32);
            Ok((v, n))
        },
        Err(e) => Err(e),
    }
}

/// A successful decode consumes at least one byte and no more than there are.
pub proof fn lemma_parse_var_int32_len(b: Seq<u8>)
    ensures
        parse_var_int32(b) matches Ok((v, n)) ==> 1 <= n <= 5 && n <= b.len(),
{
    lemma_parse_var_uint_bounds(b, 5);
}

/// Decoding stops short of any proper prefix of an encoding.
proof fn lemma_var_uint_truncated(u: nat, m: nat, k: int)
    requires
        1 <= m,
        u < group_bound(m),
        0 <= k < var_uint_bytes(u).len(),
    ensures
        parse_var_uint(var_uint_bytes(u).take(k), m) == Err::<(nat, nat), Error>(
            Error::BufferUnderrun,
        ),
    decreases m,
{
    let b = var_uint_bytes(u).take(k);
    if k > 0 && u >= 128 && m > 1 {
        assert(group_bound(m) == 128 * group_bound((m - 1) as nat));
        lemma_var_uint_truncated(u / 128, (m - 1) as nat, k - 1);
        assert(b.drop_first() =~= var_uint_bytes(u / 128).take(k - 1));
    } else if k > 0 && m <= 1 {
        assert(u < 16);
    }
}

/// Decoding a proper prefix of an encoding runs out of bytes.
pub proof fn lemma_var_int32_truncated(v: i32, k: int)
    requires
        0 <= k < var_int32_bytes(v).len(),
    ensures
        parse_var_int32(var_int32_bytes(v).take(k)) == Err::<(i32, nat), Error>(
            Error::BufferUnderrun,
        ),
{
    lemma_group_bound_5();
    lemma_var_uint_truncated(zigzag(v as int) as nat, 5, k);
}

} // verus!
