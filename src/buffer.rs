//! Growable byte buffers: a writer that appends, and a reader with a cursor
//! that fails rather than read past the end.
use vstd::prelude::*;
use vstd::utf8::{decode_utf8, valid_utf8};

use crate::error::Error;
use crate::varint::{parse_var_int32, read_var_int32, var_int32_bytes, write_var_int32};

verus! {

/// Relies on `String::from_utf8`: it succeeds exactly when the bytes are
/// valid UTF-8, and the string then holds the characters they encode.
#[verifier::external_body]
fn string_from_utf8(b: Vec<u8>) -> (r: Option<String>)
    ensures
        r is Some <==> valid_utf8(b@),
        r matches Some(s) ==> s@ == decode_utf8(b@),
{
    String::from_utf8(b).ok()
}

/// The largest buffer size that a reservation may ask for.
pub const MAX_BUFFER: usize = 0x7fff_ffff;

/// An append-only byte buffer.
pub struct Writer {
    bf: Vec<u8>,
}

impl View for Writer {
    type V = Seq<u8>;

    closed spec fn view(&self) -> Seq<u8> {
        self.bf@
    }
}

impl Writer {
    pub fn new() -> (w: Writer)
        ensures
            w@ == Seq::<u8>::empty(),
    {
        Writer { bf: Vec::new() }
    }

    /// Number of bytes written so far.
    pub fn len(&self) -> (r: usize)
        ensures
            r == self@.len(),
    {
        self.bf.len()
    }

    /// Makes room for at least `additional` more bytes; the contents stay. A
    /// request past `MAX_BUFFER` in all is ignored, as it is only a hint.
    pub fn reserve(&mut self, additional: usize)
        ensures
            final(self)@ == old(self)@,
    {
        let len = self.bf.len();
        if len <= MAX_BUFFER && additional <= MAX_BUFFER - len {
            self.bf.reserve(additional);
        }
    }

    pub fn u8(&mut self, v: u8)
        ensures
            final(self)@ == old(self)@.push(v),
    {
        self.bf.push(v);
    }

    /// Appends raw bytes.
    pub fn bytes(&mut self, v: &[u8])
        ensures
            final(self)@ == old(self)@ + v@,
    {
        let ghost start = self.bf@;
        let mut i: usize = 0;
        while i < v.len()
            invariant
                i <= v@.len(),
                self.bf@ == start + v@.take(i as int),
            decreases v@.len() - i,
        {
            self.bf.push(v[i]);
            assert(v@.take(i + 1) =~= v@.take(i as int).push(v@[i as int]));
            i = i + 1;
        }
        assert(v@.take(i as int) =~= v@);
    }

    /// Appends the variable-length encoding of `v`.
    pub fn var_int32(&mut self, v: i32)
        ensures
            final(self)@ == old(self)@ + var_int32_bytes(v),
    {
        write_var_int32(&mut self.bf, v);
    }

    /// The bytes written so far.
    pub fn dump(&self) -> (r: Vec<u8>)
        ensures
            r@ == self@,
    {
        self.bf.clone()
    }

    pub fn into_bytes(self) -> (r: Vec<u8>)
        ensures
            r@ == self@,
    {
        self.bf
    }
}

/// Splits `len` bytes off the front of `b`.
pub open spec fn take_bytes(b: Seq<u8>, len: int) -> Result<(Seq<u8>, nat), Error> {
    if len < 0 {
        Err(Error::InvalidLength)
    } else if len > b.len() {
        Err(Error::BufferUnderrun)
    } else {
        Ok((b.take(len), len as nat))
    }
}

/// Decodes `len` bytes off the front of `b` as UTF-8 text.
pub open spec fn take_string(b: Seq<u8>, len: int) -> Result<(Seq<char>, nat), Error> {
    match take_bytes(b, len) {
        Ok((s, n)) => if valid_utf8(s) {
            Ok((decode_utf8(s), n))
        } else {
            Err(Error::InvalidUtf8)
        },
        Err(e) => Err(e),
    }
}

/// A byte buffer read front to back.
pub struct Reader {
    bf: Vec<u8>,
    cursor: usize,
}

impl Reader {
    /// All the bytes of the buffer.
    pub closed spec fn data(&self) -> Seq<u8> {
        self.bf@
    }

    /// How many bytes have been consumed.
    pub closed spec fn pos(&self) -> nat {
        self.cursor as nat
    }

    pub open spec fn wf(&self) -> bool {
        self.pos() <= self.data().len()
    }

    /// The bytes not yet consumed.
    pub open spec fn remaining(&self) -> Seq<u8> {
        self.data().skip(self.pos() as int)
    }

    /// `self` is `old` moved `n` bytes on, or left in place on failure.
    pub open spec fn moved<T>(&self, old: Reader, r: Result<T, Error>, n: nat) -> bool {
        &&& self.wf()
        &&& self.data() == old.data()
        &&& r is Ok ==> self.pos() == old.pos() + n
        &&& r is Err ==> self.pos() == old.pos()
    }

    pub fn new(bf: Vec<u8>) -> (r: Reader)
        ensures
            r.wf(),
            r.data() == bf@,
            r.pos() == 0,
    {
        Reader { bf, cursor: 0 }
    }

    /// Number of bytes not yet consumed.
    pub fn remaining_len(&self) -> (r: usize)
        requires
            self.wf(),
        ensures
            r == self.remaining().len(),
    {
        self.bf.len() - self.cursor
    }

    /// Number of bytes consumed so far.
    pub fn cursor(&self) -> (r: usize)
        ensures
            r == self.pos(),
    {
        self.cursor
    }

    pub fn u8(&mut self) -> (r: Result<u8, Error>)
        requires
            old(self).wf(),
        ensures
            final(self).moved(*old(self), r, 1),
            old(self).remaining().len() == 0 ==> r == Err::<u8, Error>(Error::BufferUnderrun),
            old(self).remaining().len() > 0 ==> r == Ok::<u8, Error>(old(self).remaining()[0]),
    {
        if self.cursor < self.bf.len() {
            let v = self.bf[self.cursor];
            self.cursor = self.cursor + 1;
            Ok(v)
        } else {
            Err(Error::BufferUnderrun)
        }
    }

    /// Reads a variable-length signed 32-bit integer.
    pub fn var_int32(&mut self) -> (r: Result<i32, Error>)
        requires
            old(self).wf(),
        ensures
            match parse_var_int32(old(self).remaining()) {
                Ok((v, n)) => r == Ok::<i32, Error>(v) && final(self).moved(*old(self), r, n),
                Err(e) => r == Err::<i32, Error>(e) && final(self).moved(*old(self), r, 0),
            },
    {
        let avail: usize = self.bf.len() - self.cursor;
        match read_var_int32(self.bf.as_slice(), self.cursor) {
            Ok((v, n)) => {
                proof {
                    crate::varint::lemma_parse_var_int32_len(self.bf@.skip(self.cursor as int));
                    assert(self.bf@.skip(self.cursor as int).len() == self.bf@.len()
                        - self.cursor);
                    assert(n <= avail);
                }
                self.cursor = self.cursor + n;
                Ok(v)
            },
            Err(e) => Err(e),
        }
    }

    /// Reads exactly `len` raw bytes.
    pub fn bytes(&mut self, len: i64) -> (r: Result<Vec<u8>, Error>)
        requires
            old(self).wf(),
        ensures
            match take_bytes(old(self).remaining(), len as int) {
                Ok((s, n)) => r matches Ok(v) && v@ == s && final(self).moved(*old(self), r, n),
                Err(e) => r == Err::<Vec<u8>, Error>(e) && final(self).moved(*old(self), r, 0),
            },
    {
        if len < 0 {
            return Err(Error::InvalidLength);
        }
        if len as u64 > (self.bf.len() - self.cursor) as u64 {
            return Err(Error::BufferUnderrun);
        }
        let n = len as usize;
        let end: usize = self.cursor + n;
        let mut out: Vec<u8> = Vec::with_capacity(n);
        let mut i: usize = 0;
        while i < n
            invariant
                self.wf(),
                end == self.cursor + n,
                end <= self.bf@.len(),
                i <= n,
                out@ == self.remaining().take(i as int),
            decreases n - i,
        {
            out.push(self.bf[self.cursor + i]);
            assert(self.remaining().take(i + 1) =~= self.remaining().take(i as int).push(
                self.bf@[self.cursor + i],
            ));
            i = i + 1;
        }
        self.cursor = end;
        Ok(out)
    }

    /// Reads exactly `len` bytes and decodes them as UTF-8.
    pub fn string(&mut self, len: i64) -> (r: Result<String, Error>)
        requires
            old(self).wf(),
        ensures
            match take_string(old(self).remaining(), len as int) {
                Ok((s, n)) => r matches Ok(v) && v@ == s && final(self).moved(*old(self), r, n),
                Err(e) => r == Err::<String, Error>(e) && final(self).moved(*old(self), r, 0),
            },
    {
        let start = self.cursor;
        match self.bytes(len) {
            Ok(b) => match string_from_utf8(b) {
                Some(s) => Ok(s),
                None => {
                    self.cursor = start;
                    Err(Error::InvalidUtf8)
                },
            },
            Err(e) => Err(e),
        }
    }
}

} // verus!
