//! Transcoding of UTF-16 code units into UTF-8 bytes.
//!
//! Units are taken in a caller-given byte order. A high surrogate must be
//! followed by a low one; the pair stands for one scalar above the basic
//! multilingual plane. Two paths share one contract: a unit-at-a-time path,
//! and a batched path that classifies fixed-width batches of units and writes
//! a batch free of surrogates in one sweep.
use vstd::prelude::*;
use vstd::utf8::{decode_utf8, encode_utf8, encode_utf8_decode_utf8, encode_utf8_valid_utf8, valid_utf8};
use vstd::utf8::{encode_scalar, has_width_1_encoding, has_width_2_encoding,
    has_width_3_encoding, has_width_4_encoding, is_scalar, last_continuation_byte,
    leading_byte_width_1, leading_byte_width_2, leading_byte_width_3, leading_byte_width_4,
    second_last_continuation_byte, third_last_continuation_byte};

verus! {

/// Malformed UTF-16 input.
#[derive(Debug, Clone, Copy, PartialEq, Eq, Structural)]
pub enum Utf16Error {
    /// A high surrogate is the last unit, or is followed by a unit outside
    /// the surrogate range.
    MissingSurrogatePair,
    /// A low surrogate has no high surrogate before it, or a high surrogate is
    /// followed by another high surrogate.
    WrongSurrogatePair,
}

impl Utf16Error {
    /// A human-readable description of the failure.
    pub fn message(&self) -> (r: String)
        ensures
            *self == Utf16Error::MissingSurrogatePair ==> r@
                == "Invalid UTF-16 string: missing surrogate pair"@,
            *self == Utf16Error::WrongSurrogatePair ==> r@
                == "Invalid UTF-16 string: wrong surrogate pair"@,
    {
        match self {
            Utf16Error::MissingSurrogatePair => "Invalid UTF-16 string: missing surrogate pair".to_owned(),
            Utf16Error::WrongSurrogatePair => "Invalid UTF-16 string: wrong surrogate pair".to_owned(),
        }
    }
}

/// The unit with its two bytes exchanged.
pub open spec fn swap_bytes(u: u16) -> u16 {
    ((u % 256) * 256 + u / 256) as u16
}

/// The unit at `i`, in the byte order asked for.
pub open spec fn unit_at(units: Seq<u16>, i: int, swap: bool) -> u16 {
    if swap {
        swap_bytes(units[i])
    } else {
        units[i]
    }
}

pub open spec fn is_high_surrogate(u: u16) -> bool {
    0xD800 <= u <= 0xDBFF
}

pub open spec fn is_low_surrogate(u: u16) -> bool {
    0xDC00 <= u <= 0xDFFF
}

pub open spec fn is_surrogate(u: u16) -> bool {
    0xD800 <= u <= 0xDFFF
}

/// The scalar that a surrogate pair stands for.
pub open spec fn pair_scalar(hi: u16, lo: u16) -> u32 {
    (0x10000 + (hi - 0xD800) * 0x400 + (lo - 0xDC00)) as u32
}

/// `p` in front of a successful result; a failure stays as it is.
pub open spec fn prepend(p: Seq<u8>, r: Result<Seq<u8>, Utf16Error>) -> Result<
    Seq<u8>,
    Utf16Error,
> {
    match r {
        Ok(b) => Ok(p + b),
        Err(e) => Err(e),
    }
}

/// The UTF-8 encoding of the units from `i` on, or the first malformation.
pub open spec fn transcode_from(units: Seq<u16>, swap: bool, i: int) -> Result<
    Seq<u8>,
    Utf16Error,
>
    decreases units.len() - i,
{
    if i < 0 || i >= units.len() {
        Ok(Seq::empty())
    } else {
        let u = unit_at(units, i, swap);
        if is_high_surrogate(u) {
            if i + 1 >= units.len() {
                Err(Utf16Error::MissingSurrogatePair)
            } else {
                let w = unit_at(units, i + 1, swap);
                if is_low_surrogate(w) {
                    prepend(encode_scalar(pair_scalar(u, w)), transcode_from(units, swap, i + 2))
                } else if is_surrogate(w) {
                    Err(Utf16Error::WrongSurrogatePair)
                } else {
                    Err(Utf16Error::MissingSurrogatePair)
                }
            }
        } else if is_low_surrogate(u) {
            Err(Utf16Error::WrongSurrogatePair)
        } else {
            prepend(encode_scalar(u as u32), transcode_from(units, swap, i + 1))
        }
    }
}

/// The UTF-8 encoding of a whole unit sequence, with each unit's bytes
/// exchanged first when `swap` holds.
pub open spec fn transcode(units: Seq<u16>, swap: bool) -> Result<Seq<u8>, Utf16Error> {
    transcode_from(units, swap, 0)
}

fn swap_unit(u: u16) -> (r: u16)
    ensures
        r == swap_bytes(u),
{
    let x: u32 = u as u32;
    ((x % 256) * 256 + x / 256) as u16
}

fn unit_exec(units: &[u16], i: usize, swap: bool) -> (r: u16)
    requires
        i < units@.len(),
    ensures
        r == unit_at(units@, i as int, swap),
{
    if swap {
        swap_unit(units[i])
    } else {
        units[i]
    }
}

/// Appends the UTF-8 encoding of one scalar.
fn push_scalar(out: &mut Vec<u8>, c: u32)
    requires
        is_scalar(c),
    ensures
        final(out)@ == old(out)@ + encode_scalar(c),
{
    if c <= 0x7F {
        out.push((c & 0x7F) as u8);
        assert(final(out)@ =~= old(out)@ + seq![leading_byte_width_1(c)]);
    } else if c <= 0x7FF {
        out.push(0xC0 | ((c >> 6) & 0x1F) as u8);
        out.push(0x80 | (c & 0x3F) as u8);
        assert(has_width_2_encoding(c));
        assert(out@ =~= old(out)@ + seq![leading_byte_width_2(c), last_continuation_byte(c)]);
    } else if c <= 0xFFFF {
        out.push(0xE0 | ((c >> 12) & 0x0F) as u8);
        out.push(0x80 | ((c >> 6) & 0x3F) as u8);
        out.push(0x80 | (c & 0x3F) as u8);
        assert(has_width_3_encoding(c));
        assert(out@ =~= old(out)@ + seq![
            leading_byte_width_3(c),
            second_last_continuation_byte(c),
            last_continuation_byte(c),
        ]);
    } else {
        out.push(0xF0 | ((c >> 18) & 0x7) as u8);
        out.push(0x80 | ((c >> 12) & 0x3F) as u8);
        out.push(0x80 | ((c >> 6) & 0x3F) as u8);
        out.push(0x80 | (c & 0x3F) as u8);
        assert(has_width_4_encoding(c));
        assert(out@ =~= old(out)@ + seq![
            leading_byte_width_4(c),
            third_last_continuation_byte(c),
            second_last_continuation_byte(c),
            last_continuation_byte(c),
        ]);
    }
}

/// Transcodes the one scalar that starts at unit `i`: on success, the index of
/// the unit after it.
fn step(units: &[u16], swap: bool, i: usize, out: &mut Vec<u8>) -> (r: Result<usize, Utf16Error>)
    requires
        i < units@.len(),
    ensures
        match r {
            Ok(j) => i < j <= units@.len() && prepend(
                old(out)@,
                transcode_from(units@, swap, i as int),
            ) == prepend(final(out)@, transcode_from(units@, swap, j as int)),
            Err(e) => transcode_from(units@, swap, i as int) == Err::<Seq<u8>, Utf16Error>(e),
        },
{
    let ghost start = out@;
    let n: usize = units.len();
    let u = unit_exec(units, i, swap);
    if 0xD800 <= u && u <= 0xDBFF {
        if i + 1 >= n {
            return Err(Utf16Error::MissingSurrogatePair);
        }
        let w = unit_exec(units, i + 1, swap);
        if 0xDC00 <= w && w <= 0xDFFF {
            let c: u32 = 0x10000 + ((u - 0xD800) as u32) * 0x400 + ((w - 0xDC00) as u32);
            assert(c == pair_scalar(u, w));
            push_scalar(out, c);
    proof {
                if let Ok(b) = transcode_from(units@, swap, i + 2) {
                    assert(start + (encode_scalar(c) + b) =~= out@ + b);
                }
            }
            Ok(i + 2)
        } else if 0xD800 <= w && w <= 0xDFFF {
            Err(Utf16Error::WrongSurrogatePair)
        } else {
            Err(Utf16Error::MissingSurrogatePair)
        }
    } else if 0xDC00 <= u && u <= 0xDFFF {
        Err(Utf16Error::WrongSurrogatePair)
    } else {
        push_scalar(out, u as u32);
        proof {
            if let Ok(b) = transcode_from(units@, swap, i + 1) {
                assert(start + (encode_scalar(u as u32) + b) =~= out@ + b);
            }
        }
        Ok(i + 1)
    }
}

/// Transcodes `units` one scalar at a time, exchanging each unit's bytes
/// first when `swap` holds.
pub fn transcode_units(units: &[u16], swap: bool) -> (r: Result<Vec<u8>, Utf16Error>)
    ensures
        match transcode(units@, swap) {
            Ok(b) => r matches Ok(v) && v@ == b,
            Err(e) => r == Err::<Vec<u8>, Utf16Error>(e),
        },
{
    let mut out: Vec<u8> = Vec::new();
    let mut i: usize = 0;
    while i < units.len()
        invariant
            i <= units@.len(),
            transcode(units@, swap) == prepend(out@, transcode_from(units@, swap, i as int)),
        decreases units@.len() - i,
    {
        match step(units, swap, i, &mut out) {
            Ok(j) => {
                i = j;
            },
            Err(e) => {
                return Err(e);
            },
        }
    }
    assert(out@ + Seq::<u8>::empty() =~= out@);
    Ok(out)
}

/// `r` is what transcoding `units` gives, with bytes exchanged when `swap` holds.
pub open spec fn transcoded(units: Seq<u16>, swap: bool, r: Result<Vec<u8>, Utf16Error>) -> bool {
    match transcode(units, swap) {
        Ok(b) => r matches Ok(v) && v@ == b,
        Err(e) => r == Err::<Vec<u8>, Utf16Error>(e),
    }
}

/// Width of a batch on the batched path.
pub const LANES: usize = 8;

proof fn lemma_ascii_scalar(u: u16)
    requires
        u < 0x80,
    ensures
        encode_scalar(u as u32) == seq![u as u8],
{
    let c = u as u32;
    assert(c & 0x7F == c) by (bit_vector)
        requires
            c < 0x80,
    ;
}

/// Transcodes `units` in batches of `LANES` units: a batch free of surrogates
/// is classified once and written in one sweep (byte by byte when it is all
/// ASCII); any other batch, and the tail, go one scalar at a time. The result
/// is the same as that of `transcode_units` on every input.
pub fn transcode_units_batched(units: &[u16], swap: bool) -> (r: Result<Vec<u8>, Utf16Error>)
    ensures
        transcoded(units@, swap, r),
{
    let n: usize = units.len();
    let mut out: Vec<u8> = Vec::with_capacity(n);
    let mut i: usize = 0;
    while i < n
        invariant
            n == units@.len(),
            i <= n,
            transcode(units@, swap) == prepend(out@, transcode_from(units@, swap, i as int)),
        decreases n - i,
    {
        let mut clean = false;
        if n - i >= LANES {
            let mut batch: Vec<u16> = Vec::with_capacity(LANES);
            let mut all_ascii = true;
            let mut any_surrogate = false;
            let mut k: usize = 0;
            while k < LANES
                invariant
                    n == units@.len(),
                    i + LANES <= n,
                    k <= LANES,
                    batch@.len() == k,
                    forall|m: int| 0 <= m < k ==> batch@[m] == unit_at(units@, i + m, swap),
                    all_ascii ==> forall|m: int| 0 <= m < k ==> batch@[m] < 0x80,
                    !any_surrogate ==> forall|m: int| 0 <= m < k ==> !is_surrogate(batch@[m]),
                decreases LANES - k,
            {
                let u = unit_exec(units, i + k, swap);
                batch.push(u);
                all_ascii = all_ascii && u < 0x80;
                any_surrogate = any_surrogate || (0xD800 <= u && u <= 0xDFFF);
                k = k + 1;
            }
            if !any_surrogate {
                let mut k: usize = 0;
                while k < LANES
                    invariant
                        n == units@.len(),
                        i + LANES <= n,
                        k <= LANES,
                        batch@.len() == LANES,
                        forall|m: int| 0 <= m < LANES ==> batch@[m] == unit_at(units@, i + m, swap),
                        all_ascii ==> forall|m: int| 0 <= m < LANES ==> batch@[m] < 0x80,
                        forall|m: int| 0 <= m < LANES ==> !is_surrogate(batch@[m]),
                        transcode(units@, swap) == prepend(
                            out@,
                            transcode_from(units@, swap, i + k),
                        ),
                    decreases LANES - k,
                {
                    let u = batch[k];
                    let ghost before = out@;
                    assert(!is_surrogate(u));
                    if all_ascii {
                        proof {
                            lemma_ascii_scalar(u);
                        }
                        out.push(u as u8);
                    } else {
                        push_scalar(&mut out, u as u32);
                    }
                    assert(out@ == before + encode_scalar(u as u32));
                    proof {
                        if let Ok(b) = transcode_from(units@, swap, i + k + 1) {
                            assert(before + (encode_scalar(u as u32) + b) =~= out@ + b);
                        }
                    }
                    k = k + 1;
                }
                i = i + LANES;
                clean = true;
            }
        }
        if !clean {
            match step(units, swap, i, &mut out) {
                Ok(j) => {
                    i = j;
                },
                Err(e) => {
                    return Err(e);
                },
            }
        }
    }
    assert(out@ + Seq::<u8>::empty() =~= out@);
    Ok(out)
}

/// Relies on `u16::to_ne_bytes`: the two bytes of a unit in the target's
/// memory order, which is either little- or big-endian.
#[verifier::external_body]
fn native_bytes(u: u16) -> (r: [u8; 2])
    ensures
        (r@[0] == u % 256 && r@[1] == u / 256) || (r@[0] == u / 256 && r@[1] == u % 256),
{
    u.to_ne_bytes()
}

/// Whether the target stores the low byte of a unit first.
pub fn target_is_little_endian() -> bool {
    let b = native_bytes(1);
    b[0] == 1
}

/// Transcodes `units` whose bytes are in the order `is_little_endian` names,
/// on a target whose own order `target_little` names.
pub fn utf16_to_utf8_on(units: &[u16], is_little_endian: bool, target_little: bool) -> (r: Result<
    Vec<u8>,
    Utf16Error,
>)
    ensures
        transcoded(units@, is_little_endian != target_little, r),
{
    transcode_units(units, is_little_endian != target_little)
}

/// Transcodes `units` whose bytes are in the order `is_little_endian` names.
/// Each unit's bytes are exchanged first exactly when that order is not the
/// target's own.
pub fn utf16_to_utf8(units: &[u16], is_little_endian: bool) -> (r: Result<Vec<u8>, Utf16Error>)
    ensures
        transcoded(units@, false, r) || transcoded(units@, true, r),
{
    let target_little = target_is_little_endian();
    utf16_to_utf8_on(units, is_little_endian, target_little)
}

/// The batched counterpart of `utf16_to_utf8`.
pub fn utf16_to_utf8_batched(units: &[u16], is_little_endian: bool) -> (r: Result<
    Vec<u8>,
    Utf16Error,
>)
    ensures
        transcoded(units@, false, r) || transcoded(units@, true, r),
{
    let target_little = target_is_little_endian();
    transcode_units_batched(units, is_little_endian != target_little)
}

/// Every unit with its bytes exchanged.
pub open spec fn swap_all(units: Seq<u16>) -> Seq<u16> {
    units.map_values(|u: u16| swap_bytes(u))
}

proof fn lemma_swap_twice(u: u16)
    ensures
        swap_bytes(swap_bytes(u)) == u,
{
    let a = u % 256;
    let b = u / 256;
    assert(u == b * 256 + a);
    assert(swap_bytes(u) == a * 256 + b);
    assert((a * 256 + b) % 256 == b) by (nonlinear_arith)
        requires
            0 <= b < 256,
    ;
    assert((a * 256 + b) / 256 == a) by (nonlinear_arith)
        requires
            0 <= b < 256,
    ;
}

proof fn lemma_same_units(a: Seq<u16>, sa: bool, b: Seq<u16>, sb: bool, i: int)
    requires
        a.len() == b.len(),
        forall|j: int| 0 <= j < a.len() ==> unit_at(a, j, sa) == unit_at(b, j, sb),
    ensures
        transcode_from(a, sa, i) == transcode_from(b, sb, i),
    decreases a.len() - i,
{
    if 0 <= i < a.len() {
        lemma_same_units(a, sa, b, sb, i + 1);
        if i + 1 < a.len() {
            lemma_same_units(a, sa, b, sb, i + 2);
        }
    }
}

/// Byte order is all the flag decides: exchanging the bytes of every unit
/// and flipping the flag gives the same bytes or the same failure.
pub proof fn lemma_byte_order(units: Seq<u16>, swap: bool)
    ensures
        transcode(swap_all(units), !swap) == transcode(units, swap),
{
    let v = swap_all(units);
    assert forall|j: int| 0 <= j < v.len() implies unit_at(v, j, !swap) == unit_at(
        units,
        j,
        swap,
    ) by {
        lemma_swap_twice(units[j]);
    }
    lemma_same_units(v, !swap, units, swap, 0);
}

/// The text that the units from `i` on stand for, or the first malformation.
pub open spec fn decode_units_from(units: Seq<u16>, swap: bool, i: int) -> Result<
    Seq<char>,
    Utf16Error,
>
    decreases units.len() - i,
{
    if i < 0 || i >= units.len() {
        Ok(Seq::empty())
    } else {
        let u = unit_at(units, i, swap);
        if is_high_surrogate(u) {
            if i + 1 >= units.len() {
                Err(Utf16Error::MissingSurrogatePair)
            } else {
                let w = unit_at(units, i + 1, swap);
                if is_low_surrogate(w) {
                    match decode_units_from(units, swap, i + 2) {
                        Ok(t) => Ok(seq![pair_scalar(u, w) as char] + t),
                        Err(e) => Err(e),
                    }
                } else if is_surrogate(w) {
                    Err(Utf16Error::WrongSurrogatePair)
                } else {
                    Err(Utf16Error::MissingSurrogatePair)
                }
            }
        } else if is_low_surrogate(u) {
            Err(Utf16Error::WrongSurrogatePair)
        } else {
            match decode_units_from(units, swap, i + 1) {
                Ok(t) => Ok(seq![u as u32 as char] + t),
                Err(e) => Err(e),
            }
        }
    }
}

/// The text that a whole unit sequence stands for.
pub open spec fn decode_units(units: Seq<u16>, swap: bool) -> Result<Seq<char>, Utf16Error> {
    decode_units_from(units, swap, 0)
}

proof fn lemma_encode_utf8_cons(c: char, t: Seq<char>)
    ensures
        encode_utf8(seq![c] + t) == encode_scalar(c as u32) + encode_utf8(t),
{
    let s = seq![c] + t;
    assert(s[0] == c);
    assert(s.drop_first() =~= t);
}

proof fn lemma_transcode_from_text(units: Seq<u16>, swap: bool, i: int)
    ensures
        transcode_from(units, swap, i) == match decode_units_from(units, swap, i) {
            Ok(c) => Ok::<Seq<u8>, Utf16Error>(encode_utf8(c)),
            Err(e) => Err(e),
        },
    decreases units.len() - i,
{
    if 0 <= i < units.len() {
        let u = unit_at(units, i, swap);
        if is_high_surrogate(u) {
            if i + 1 < units.len() {
                let w = unit_at(units, i + 1, swap);
                lemma_transcode_from_text(units, swap, i + 2);
                if is_low_surrogate(w) {
                    if let Ok(t) = decode_units_from(units, swap, i + 2) {
                        let c = pair_scalar(u, w);
                        assert(is_scalar(c));
                        lemma_encode_utf8_cons(c as char, t);
                    }
                }
            }
        } else if !is_low_surrogate(u) {
            lemma_transcode_from_text(units, swap, i + 1);
            if let Ok(t) = decode_units_from(units, swap, i + 1) {
                assert(is_scalar(u as u32));
                lemma_encode_utf8_cons(u as u32 as char, t);
            }
        }
    } else {
        assert(encode_utf8(Seq::<char>::empty()) == Seq::<u8>::empty());
    }
}

/// Transcoding succeeds exactly when the units stand for some text, and then
/// gives valid UTF-8 that decodes to exactly that text.
pub proof fn lemma_transcode_valid_utf8(units: Seq<u16>, swap: bool)
    ensures
        transcode(units, swap) is Ok <==> decode_units(units, swap) is Ok,
        transcode(units, swap) matches Ok(b) ==> valid_utf8(b) && decode_utf8(b)
            == decode_units(units, swap)->Ok_0,
{
    lemma_transcode_from_text(units, swap, 0);
    if let Ok(c) = decode_units(units, swap) {
        encode_utf8_valid_utf8(c);
        encode_utf8_decode_utf8(c);
    }
}

/// The UTF-16 units of a text, in the target's own order.
pub open spec fn utf16_of(text: Seq<char>) -> Seq<u16>
    decreases text.len(),
{
    if text.len() == 0 {
        Seq::empty()
    } else {
        let c = text[0] as u32;
        let head: Seq<u16> = if c < 0x10000 {
            seq![c as u16]
        } else {
            seq![(0xD800 + (c - 0x10000) / 0x400) as u16, (0xDC00 + (c - 0x10000) % 0x400) as u16]
        };
        head + utf16_of(text.drop_first())
    }
}

proof fn lemma_utf16_of_decodes(text: Seq<char>, rest: Seq<u16>)
    ensures
        decode_units_from(utf16_of(text) + rest, false, 0) == match decode_units_from(rest, false, 0) {
            Ok(t) => Ok::<Seq<char>, Utf16Error>(text + t),
            Err(e) => Err(e),
        },
    decreases text.len(),
{
    if text.len() == 0 {
        assert(utf16_of(text) + rest =~= rest);
        if let Ok(t) = decode_units_from(rest, false, 0) {
            assert(text + t =~= t);
        }
    } else {
        let ch = text[0];
        let c = ch as u32;
        let tail = text.drop_first();
        let after = utf16_of(tail) + rest;
        lemma_utf16_of_decodes(tail, rest);
        let all = utf16_of(text) + rest;
        vstd::utf8::char_is_scalar(ch);
        if c < 0x10000 {
            assert(all =~= seq![c as u16] + after);
            assert(all[0] == c as u16);
            assert(all.skip(1) =~= after);
            lemma_decode_shift(all, 1, after);
            assert((c as u16) as u32 == c);
            vstd::utf8::char_u32_cast(ch, c);
        } else {
            let hi = (0xD800 + (c - 0x10000) / 0x400) as u16;
            let lo = (0xDC00 + (c - 0x10000) % 0x400) as u16;
            assert(all =~= seq![hi, lo] + after);
            assert(all[0] == hi);
            assert(all[1] == lo);
            assert(pair_scalar(hi, lo) == c);
            vstd::utf8::char_u32_cast(ch, c);
            assert(all.skip(2) =~= after);
            lemma_decode_shift(all, 2, after);
        }
        if let Ok(t) = decode_units_from(rest, false, 0) {
            assert(seq![ch] + (tail + t) =~= text + t);
        }
    }
}

proof fn lemma_decode_shift(all: Seq<u16>, k: int, after: Seq<u16>)
    requires
        0 <= k <= all.len(),
        all.skip(k) == after,
    ensures
        decode_units_from(all, false, k) == decode_units_from(after, false, 0),
{
    lemma_decode_suffix(all, k, after, 0);
}

proof fn lemma_decode_suffix(all: Seq<u16>, k: int, after: Seq<u16>, j: int)
    requires
        0 <= k <= all.len(),
        all.skip(k) == after,
        0 <= j,
    ensures
        decode_units_from(all, false, k + j) == decode_units_from(after, false, j),
    decreases after.len() - j,
{
    if j < after.len() {
        assert(all[k + j] == after[j]);
        lemma_decode_suffix(all, k, after, j + 1);
        if j + 1 < after.len() {
            assert(all[k + j + 1] == after[j + 1]);
            lemma_decode_suffix(all, k, after, j + 2);
        }
    }
}

/// The UTF-16 encoding of any text, taken in the target's own order,
/// transcodes to the UTF-8 encoding of that text.
pub proof fn lemma_text_round_trip(text: Seq<char>)
    ensures
        decode_units(utf16_of(text), false) == Ok::<Seq<char>, Utf16Error>(text),
        transcode(utf16_of(text), false) == Ok::<Seq<u8>, Utf16Error>(encode_utf8(text)),
{
    lemma_utf16_of_decodes(text, Seq::empty());
    assert(utf16_of(text) + Seq::<u16>::empty() =~= utf16_of(text));
    assert(text + Seq::<char>::empty() =~= text);
    lemma_transcode_from_text(utf16_of(text), false, 0);
}

} // verus!
