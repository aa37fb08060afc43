//! The capability every encodable type has: write, read, a size hint and a
//! wire tag, with `read` the inverse of `write`.
use vstd::prelude::*;
use vstd::utf8::{encode_utf8, encode_utf8_decode_utf8, encode_utf8_valid_utf8};

use crate::buffer::take_string;
use crate::error::Error;
use crate::types::{FieldType, Mode, ReadContext, WriteContext};
use crate::varint::{
    lemma_var_int32_round_trip, lemma_var_int32_truncated, parse_var_int32, var_int32_bytes,
};

verus! {

/// `after` is `before` moved on by `n` bytes when `r` succeeded; in any case
/// it reads the same buffer in the same mode.
pub open spec fn read_step<T>(before: ReadContext, after: ReadContext, r: Result<T, Error>, n: nat) -> bool {
    &&& after.reader.wf()
    &&& after.mode == before.mode
    &&& after.reader.data() == before.reader.data()
    &&& r is Ok ==> after.reader.pos() == before.reader.pos() + n
}

/// `r` is what a reader makes of bytes that `parse` maps to `p`.
pub open spec fn read_result<T: View>(p: Result<(T::V, nat), Error>, r: Result<T, Error>, before: ReadContext, after: ReadContext) -> bool {
    match p {
        Ok((v, n)) => r matches Ok(x) && x@ == v && read_step(before, after, r, n),
        Err(e) => r matches Err(f) && f == e && read_step(before, after, r, 0),
    }
}

pub trait Serializer: Sized + View {
    /// The bytes `write` appends for a value whose model is `v`.
    spec fn wire(v: Self::V) -> Seq<u8>;

    /// What `read` makes of the bytes at the front of `b`: a model and the
    /// number of bytes it took, or the failure.
    spec fn parse(b: Seq<u8>) -> Result<(Self::V, nat), Error>;

    /// The models that can be written.
    spec fn supported(v: Self::V) -> bool;

    /// The tag of this type.
    spec fn tag() -> FieldType;

    /// The model of the value that stands in for an absent field.
    spec fn default_model() -> Self::V;

    /// The pre-allocation hint of this type.
    spec fn reserved() -> nat;

    /// A lower-bound estimate of the bytes a value takes, used only to
    /// pre-allocate.
    fn reserved_space() -> (r: usize)
        ensures
            r == Self::reserved(),
    ;

    fn ty() -> (r: FieldType)
        ensures
            r == Self::tag(),
    ;

    fn default_value() -> (r: Self)
        ensures
            r@ == Self::default_model(),
    ;

    fn write(&self, context: &mut WriteContext)
        requires
            Self::supported(self@),
        ensures
            final(context).writer@ == old(context).writer@ + Self::wire(self@),
            final(context).mode == old(context).mode,
    ;

    fn read(context: &mut ReadContext) -> (r: Result<Self, Error>)
        requires
            old(context).reader.wf(),
        ensures
            read_result::<Self>(Self::parse(old(context).reader.remaining()), r, *old(context), *final(context)),
    ;

    /// Reading gives back what was written, whatever follows it.
    proof fn lemma_round_trip(v: Self::V, rest: Seq<u8>)
        requires
            Self::supported(v),
        ensures
            Self::parse(Self::wire(v) + rest) == Ok::<(Self::V, nat), Error>((v, Self::wire(v).len())),
    ;

    /// Reading from an encoding cut short fails with `BufferUnderrun`.
    proof fn lemma_truncated(v: Self::V, k: int)
        requires
            Self::supported(v),
            0 <= k < Self::wire(v).len(),
        ensures
            Self::parse(Self::wire(v).take(k)) == Err::<(Self::V, nat), Error>(Error::BufferUnderrun),
    ;
}

/// The encoding of a string: its UTF-8 byte length, then the bytes.
pub open spec fn string_wire(s: Seq<char>) -> Seq<u8> {
    var_int32_bytes(encode_utf8(s).len() as i32) + encode_utf8(s)
}

/// Reading a string: a length, then that many bytes of UTF-8.
pub open spec fn string_parse(b: Seq<u8>) -> Result<(Seq<char>, nat), Error> {
    match parse_var_int32(b) {
        Ok((len, n)) => match take_string(b.skip(n as int), len as int) {
            Ok((s, m)) => Ok((s, n + m)),
            Err(e) => Err(e),
        },
        Err(e) => Err(e),
    }
}

impl Serializer for String {
    open spec fn wire(v: Seq<char>) -> Seq<u8> {
        string_wire(v)
    }

    open spec fn parse(b: Seq<u8>) -> Result<(Seq<char>, nat), Error> {
        string_parse(b)
    }

    open spec fn supported(v: Seq<char>) -> bool {
        encode_utf8(v).len() <= i32::MAX
    }

    open spec fn tag() -> FieldType {
        FieldType::STRING
    }

    open spec fn default_model() -> Seq<char> {
        Seq::empty()
    }

    /// The size of the 32-bit length field.
    open spec fn reserved() -> nat {
        4
    }

    fn reserved_space() -> usize {
        4
    }

    fn ty() -> (r: FieldType) {
        FieldType::STRING
    }

    fn default_value() -> (r: String) {
        String::new()
    }

    fn write(&self, context: &mut WriteContext) {
        let b = self.as_str().as_bytes();
        context.writer.var_int32(b.len() as i32);
        context.writer.bytes(b);
        assert(context.writer@ =~= old(context).writer@ + string_wire(self@));
    }

    fn read(context: &mut ReadContext) -> (r: Result<String, Error>) {
        proof {
            crate::varint::lemma_parse_var_int32_len(context.reader.remaining());
        }
        let ghost start = context.reader.remaining();
        let len = match context.reader.var_int32() {
            Ok(len) => len,
            Err(e) => return Err(e),
        };
        assert(context.reader.remaining() =~= start.skip(context.reader.pos() - old(context).reader.pos()));
        context.reader.string(len as i64)
    }

    proof fn lemma_round_trip(v: Seq<char>, rest: Seq<u8>) {
        let bytes = encode_utf8(v);
        let len = bytes.len() as i32;
        let b = string_wire(v) + rest;
        lemma_var_int32_round_trip(len, bytes + rest);
        assert(b =~= var_int32_bytes(len) + (bytes + rest));
        let n = var_int32_bytes(len).len();
        assert(b.skip(n as int) =~= bytes + rest);
        assert((bytes + rest).take(bytes.len() as int) =~= bytes);
        encode_utf8_valid_utf8(v);
        encode_utf8_decode_utf8(v);
    }

    proof fn lemma_truncated(v: Seq<char>, k: int) {
        let bytes = encode_utf8(v);
        let len = bytes.len() as i32;
        let w = string_wire(v);
        let n = var_int32_bytes(len).len();
        if k < n {
            lemma_var_int32_truncated(len, k);
            assert(w.take(k) =~= var_int32_bytes(len).take(k));
        } else {
            lemma_var_int32_round_trip(len, w.take(k).skip(n as int));
            assert(w.take(k) =~= var_int32_bytes(len) + w.take(k).skip(n as int));
        }
    }
}

impl Serializer for i32 {
    open spec fn wire(v: i32) -> Seq<u8> {
        var_int32_bytes(v)
    }

    open spec fn parse(b: Seq<u8>) -> Result<(i32, nat), Error> {
        parse_var_int32(b)
    }

    open spec fn supported(v: i32) -> bool {
        true
    }

    open spec fn tag() -> FieldType {
        FieldType::INT32
    }

    open spec fn default_model() -> i32 {
        0
    }

    open spec fn reserved() -> nat {
        4
    }

    fn reserved_space() -> usize {
        4
    }

    fn ty() -> (r: FieldType) {
        FieldType::INT32
    }

    fn default_value() -> (r: i32) {
        0
    }

    fn write(&self, context: &mut WriteContext) {
        context.writer.var_int32(*self);
    }

    fn read(context: &mut ReadContext) -> (r: Result<i32, Error>) {
        context.reader.var_int32()
    }

    proof fn lemma_round_trip(v: i32, rest: Seq<u8>) {
        lemma_var_int32_round_trip(v, rest);
    }

    proof fn lemma_truncated(v: i32, k: int) {
        lemma_var_int32_truncated(v, k);
    }
}

/// One byte: 1 for true, 0 for false.
pub open spec fn bool_parse(b: Seq<u8>) -> Result<(bool, nat), Error> {
    if b.len() == 0 {
        Err(Error::BufferUnderrun)
    } else {
        Ok((b[0] != 0, 1))
    }
}

impl Serializer for bool {
    open spec fn wire(v: bool) -> Seq<u8> {
        seq![if v { 1u8 } else { 0u8 }]
    }

    open spec fn parse(b: Seq<u8>) -> Result<(bool, nat), Error> {
        bool_parse(b)
    }

    open spec fn supported(v: bool) -> bool {
        true
    }

    open spec fn tag() -> FieldType {
        FieldType::BOOL
    }

    open spec fn default_model() -> bool {
        false
    }

    open spec fn reserved() -> nat {
        1
    }

    fn reserved_space() -> (r: usize) {
        1
    }

    fn ty() -> (r: FieldType) {
        FieldType::BOOL
    }

    fn default_value() -> (r: bool) {
        false
    }

    fn write(&self, context: &mut WriteContext) {
        context.writer.u8(if *self { 1 } else { 0 });
    }

    fn read(context: &mut ReadContext) -> (r: Result<bool, Error>) {
        match context.reader.u8() {
            Ok(x) => Ok(x != 0),
            Err(e) => Err(e),
        }
    }

    proof fn lemma_round_trip(v: bool, rest: Seq<u8>) {
    }

    proof fn lemma_truncated(v: bool, k: int) {
    }
}

/// One byte, two's complement.
pub open spec fn i8_parse(b: Seq<u8>) -> Result<(i8, nat), Error> {
    if b.len() == 0 {
        Err(Error::BufferUnderrun)
    } else if b[0] < 128 {
        Ok((b[0] as i8, 1))
    } else {
        Ok(((b[0] - 256) as i8, 1))
    }
}

/// The two's-complement byte of `v`.
pub open spec fn i8_byte(v: i8) -> u8 {
    if v >= 0 {
        v as u8
    } else {
        (v + 256) as u8
    }
}

impl Serializer for i8 {
    open spec fn wire(v: i8) -> Seq<u8> {
        seq![i8_byte(v)]
    }

    open spec fn parse(b: Seq<u8>) -> Result<(i8, nat), Error> {
        i8_parse(b)
    }

    open spec fn supported(v: i8) -> bool {
        true
    }

    open spec fn tag() -> FieldType {
        FieldType::INT8
    }

    open spec fn default_model() -> i8 {
        0
    }

    open spec fn reserved() -> nat {
        1
    }

    fn reserved_space() -> (r: usize) {
        1
    }

    fn ty() -> (r: FieldType) {
        FieldType::INT8
    }

    fn default_value() -> (r: i8) {
        0
    }

    fn write(&self, context: &mut WriteContext) {
        let b: u8 = if *self >= 0 {
            *self as u8
        } else {
            (*self as i16 + 256) as u8
        };
        context.writer.u8(b);
    }

    fn read(context: &mut ReadContext) -> (r: Result<i8, Error>) {
        match context.reader.u8() {
            Ok(x) => if x < 128 {
                Ok(x as i8)
            } else {
                Ok((x as i16 - 256) as i8)
            },
            Err(e) => Err(e),
        }
    }

    proof fn lemma_round_trip(v: i8, rest: Seq<u8>) {
        assert((Self::wire(v) + rest)[0] == i8_byte(v));
    }

    proof fn lemma_truncated(v: i8, k: int) {
    }
}

/// Two bytes, little-endian two's complement.
pub open spec fn i16_parse(b: Seq<u8>) -> Result<(i16, nat), Error> {
    if b.len() < 2 {
        Err(Error::BufferUnderrun)
    } else {
        let u = b[0] + 256 * b[1];
        if u < 32768 {
            Ok((u as i16, 2))
        } else {
            Ok(((u - 65536) as i16, 2))
        }
    }
}

/// The unsigned 16-bit pattern of `v`.
pub open spec fn i16_bits(v: i16) -> int {
    if v >= 0 {
        v as int
    } else {
        v + 65536
    }
}

impl Serializer for i16 {
    open spec fn wire(v: i16) -> Seq<u8> {
        seq![(i16_bits(v) % 256) as u8, (i16_bits(v) / 256) as u8]
    }

    open spec fn parse(b: Seq<u8>) -> Result<(i16, nat), Error> {
        i16_parse(b)
    }

    open spec fn supported(v: i16) -> bool {
        true
    }

    open spec fn tag() -> FieldType {
        FieldType::INT16
    }

    open spec fn default_model() -> i16 {
        0
    }

    open spec fn reserved() -> nat {
        2
    }

    fn reserved_space() -> (r: usize) {
        2
    }

    fn ty() -> (r: FieldType) {
        FieldType::INT16
    }

    fn default_value() -> (r: i16) {
        0
    }

    fn write(&self, context: &mut WriteContext) {
        let w: u32 = if *self >= 0 {
            *self as u32
        } else {
            (*self as i32 + 65536) as u32
        };
        context.writer.u8((w % 256) as u8);
        context.writer.u8((w / 256) as u8);
        assert(context.writer@ =~= old(context).writer@ + Self::wire(*self));
    }

    fn read(context: &mut ReadContext) -> (r: Result<i16, Error>) {
        let ghost b = context.reader.remaining();
        if context.reader.remaining_len() < 2 {
            return Err(Error::BufferUnderrun);
        }
        let lo = match context.reader.u8() {
            Ok(x) => x,
            Err(e) => return Err(e),
        };
        assert(context.reader.remaining() =~= b.skip(1));
        let hi = match context.reader.u8() {
            Ok(x) => x,
            Err(e) => return Err(e),
        };
        let u: u32 = lo as u32 + 256 * (hi as u32);
        if u < 32768 {
            Ok(u as i16)
        } else {
            Ok((u as i32 - 65536) as i16)
        }
    }

    proof fn lemma_round_trip(v: i16, rest: Seq<u8>) {
        let b = Self::wire(v) + rest;
        assert(b[0] == (i16_bits(v) % 256) as u8);
        assert(b[1] == (i16_bits(v) / 256) as u8);
    }

    proof fn lemma_truncated(v: i16, k: int) {
    }
}

/// Encodes one top-level value in the given mode.
pub fn serialize<T: Serializer>(v: &T, mode: Mode) -> (r: Vec<u8>)
    requires
        T::supported(v@),
    ensures
        r@ == T::wire(v@),
{
    let mut context = WriteContext::new(mode);
    v.write(&mut context);
    assert(context.writer@ =~= T::wire(v@));
    context.writer.into_bytes()
}

/// Decodes one top-level value from the front of `bytes` in the given mode.
pub fn deserialize<T: Serializer>(bytes: Vec<u8>, mode: Mode) -> (r: Result<T, Error>)
    ensures
        match T::parse(bytes@) {
            Ok((v, n)) => r matches Ok(x) && x@ == v,
            Err(e) => r matches Err(f) && f == e,
        },
{
    let mut context = ReadContext::new(bytes, mode);
    assert(context.reader.remaining() =~= bytes@);
    T::read(&mut context)
}

/// Reading gives back every supported value that writing produced.
pub proof fn lemma_read_after_write<T: Serializer>(v: T::V)
    requires
        T::supported(v),
    ensures
        T::parse(T::wire(v)) == Ok::<(T::V, nat), Error>((v, T::wire(v).len())),
{
    T::lemma_round_trip(v, Seq::empty());
    assert(T::wire(v) + Seq::<u8>::empty() =~= T::wire(v));
}

} // verus!
