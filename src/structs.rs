//! Mode-dependent struct framing.
//!
//! In schema-consistent mode a struct is its field values back to back, in
//! the order both ends declare. In compatible mode it is a field count, then
//! for each field its identifier, its type tag, the byte length of its value
//! and the value. A reader collects those entries first; it then decodes each
//! field it declares from its entry, skipping entries it does not know and
//! substituting the type's default for fields the stream lacks.
use vstd::prelude::*;

use crate::buffer::take_bytes;
use crate::error::Error;
use crate::serializer::{read_result, Serializer};
use crate::types::{tag_code, Mode, ReadContext, WriteContext};
use crate::varint::{
    lemma_parse_var_int32_len, lemma_var_int32_round_trip, parse_var_int32, var_int32_bytes,
};

verus! {

/// A field as a compatible-mode stream carries it: identifier, tag code and
/// encoded value.
pub struct FieldEntry {
    pub id: i32,
    pub tag: u8,
    pub payload: Vec<u8>,
}

/// The model of a field entry.
pub open spec fn entry_model(e: FieldEntry) -> (i32, u8, Seq<u8>) {
    (e.id, e.tag, e.payload@)
}

/// The fields a compatible-mode stream held for one struct, in stream order.
pub struct FieldTable {
    pub entries: Vec<FieldEntry>,
}

impl View for FieldTable {
    type V = Seq<(i32, u8, Seq<u8>)>;

    open spec fn view(&self) -> Seq<(i32, u8, Seq<u8>)> {
        self.entries@.map_values(|e: FieldEntry| entry_model(e))
    }
}

/// The bytes of one field in compatible mode.
pub open spec fn field_entry_wire(f: (i32, u8, Seq<u8>)) -> Seq<u8> {
    var_int32_bytes(f.0) + seq![f.1] + var_int32_bytes(f.2.len() as i32) + f.2
}

/// The bytes of a field: its value alone in schema-consistent mode, the
/// framed entry in compatible mode.
pub open spec fn field_wire(mode: Mode, f: (i32, u8, Seq<u8>)) -> Seq<u8> {
    match mode {
        Mode::SchemaConsistent => f.2,
        Mode::Compatible => field_entry_wire(f),
    }
}

/// The bytes of a list of compatible-mode entries, front to back.
pub open spec fn field_entries_wire(s: Seq<(i32, u8, Seq<u8>)>) -> Seq<u8>
    decreases s.len(),
{
    if s.len() == 0 {
        Seq::empty()
    } else {
        field_entry_wire(s[0]) + field_entries_wire(s.drop_first())
    }
}

/// The bytes of a whole struct in compatible mode.
pub open spec fn table_wire(s: Seq<(i32, u8, Seq<u8>)>) -> Seq<u8> {
    var_int32_bytes(s.len() as i32) + field_entries_wire(s)
}

/// The header that opens a struct of `n` fields.
pub open spec fn struct_header_wire(mode: Mode, n: i32) -> Seq<u8> {
    match mode {
        Mode::SchemaConsistent => Seq::empty(),
        Mode::Compatible => var_int32_bytes(n),
    }
}

/// Reads one compatible-mode entry off the front of `b`.
pub open spec fn parse_field_entry(b: Seq<u8>) -> Result<((i32, u8, Seq<u8>), nat), Error> {
    match parse_var_int32(b) {
        Ok((id, n1)) => {
            let b1 = b.skip(n1 as int);
            if b1.len() == 0 {
                Err(Error::BufferUnderrun)
            } else {
                let b2 = b1.skip(1);
                match parse_var_int32(b2) {
                    Ok((len, n2)) => match take_bytes(b2.skip(n2 as int), len as int) {
                        Ok((p, n3)) => Ok(((id, b1[0], p), n1 + 1 + n2 + n3)),
                        Err(e) => Err(e),
                    },
                    Err(e) => Err(e),
                }
            }
        },
        Err(e) => Err(e),
    }
}

/// Reads `count` compatible-mode entries off the front of `b`.
pub open spec fn parse_field_entries(b: Seq<u8>, count: nat) -> Result<
    (Seq<(i32, u8, Seq<u8>)>, nat),
    Error,
>
    decreases count,
{
    if count == 0 {
        Ok((Seq::empty(), 0))
    } else {
        match parse_field_entry(b) {
            Ok((f, n1)) => match parse_field_entries(b.skip(n1 as int), (count - 1) as nat) {
                Ok((p, n2)) => Ok((seq![f] + p, n1 + n2)),
                Err(e) => Err(e),
            },
            Err(e) => Err(e),
        }
    }
}

/// Reads the entry table of a compatible-mode struct.
pub open spec fn parse_table(b: Seq<u8>) -> Result<(Seq<(i32, u8, Seq<u8>)>, nat), Error> {
    match parse_var_int32(b) {
        Ok((count, n)) => if count < 0 {
            Err(Error::InvalidLength)
        } else {
            match parse_field_entries(b.skip(n as int), count as nat) {
                Ok((p, m)) => Ok((p, n + m)),
                Err(e) => Err(e),
            }
        },
        Err(e) => Err(e),
    }
}

/// The first entry of `s` with identifier `id`.
pub open spec fn lookup(s: Seq<(i32, u8, Seq<u8>)>, id: i32) -> Option<(u8, Seq<u8>)>
    decreases s.len(),
{
    if s.len() == 0 {
        None
    } else if s[0].0 == id {
        Some((s[0].1, s[0].2))
    } else {
        lookup(s.drop_first(), id)
    }
}

/// What a reader that declares field `id` of type `T` makes of a table: the
/// decoded value, the type's default when the field is absent, or the failure.
pub open spec fn field_value<T: Serializer>(s: Seq<(i32, u8, Seq<u8>)>, id: i32) -> Result<
    T::V,
    Error,
> {
    match lookup(s, id) {
        None => Ok(T::default_model()),
        Some((tag, payload)) => if tag != tag_code(T::tag()) {
            Err(Error::TypeMismatch)
        } else {
            match T::parse(payload) {
                Ok((v, n)) => Ok(v),
                Err(e) => Err(e),
            }
        },
    }
}

/// Opens a struct of `n` fields: the count in compatible mode, nothing
/// otherwise.
pub fn write_struct_begin(context: &mut WriteContext, n: i32)
    ensures
        final(context).writer@ == old(context).writer@ + struct_header_wire(old(context).mode, n),
        final(context).mode == old(context).mode,
{
    match context.mode {
        Mode::SchemaConsistent => {
            assert(context.writer@ =~= old(context).writer@ + Seq::<u8>::empty());
        },
        Mode::Compatible => context.writer.var_int32(n),
    }
}

/// Writes field `id` holding `v`.
pub fn write_field<T: Serializer>(context: &mut WriteContext, id: i32, v: &T)
    requires
        T::supported(v@),
        T::wire(v@).len() <= i32::MAX,
    ensures
        final(context).writer@ == old(context).writer@ + field_wire(
            old(context).mode,
            (id, tag_code(T::tag()), T::wire(v@)),
        ),
        final(context).mode == old(context).mode,
{
    match context.mode {
        Mode::SchemaConsistent => {
            v.write(context);
        },
        Mode::Compatible => {
            let mut scratch = WriteContext::new(Mode::Compatible);
            v.write(&mut scratch);
            assert(scratch.writer@ =~= T::wire(v@));
            let payload = scratch.writer.into_bytes();
            context.writer.var_int32(id);
            context.writer.u8(T::ty().code());
            context.writer.var_int32(payload.len() as i32);
            context.writer.bytes(payload.as_slice());
            assert(context.writer@ =~= old(context).writer@ + field_entry_wire(
                (id, tag_code(T::tag()), T::wire(v@)),
            ));
        },
    }
}

/// Reads one compatible-mode entry.
fn read_field_entry(context: &mut ReadContext) -> (r: Result<FieldEntry, Error>)
    requires
        old(context).reader.wf(),
    ensures
        final(context).reader.wf(),
        final(context).mode == old(context).mode,
        final(context).reader.data() == old(context).reader.data(),
        match parse_field_entry(old(context).reader.remaining()) {
            Ok((f, n)) => r matches Ok(e) && entry_model(e) == f && final(context).reader.pos()
                == old(context).reader.pos() + n,
            Err(e) => r == Err::<FieldEntry, Error>(e),
        },
{
    let ghost b = context.reader.remaining();
    let ghost p0 = context.reader.pos();
    proof {
        lemma_parse_var_int32_len(b);
    }
    let id = match context.reader.var_int32() {
        Ok(id) => id,
        Err(e) => return Err(e),
    };
    let ghost b1 = context.reader.remaining();
    assert(b1 =~= b.skip(context.reader.pos() - p0));
    let tag = match context.reader.u8() {
        Ok(t) => t,
        Err(e) => return Err(e),
    };
    let ghost b2 = context.reader.remaining();
    assert(b2 =~= b1.skip(1));
    proof {
        lemma_parse_var_int32_len(b2);
    }
    let len = match context.reader.var_int32() {
        Ok(l) => l,
        Err(e) => return Err(e),
    };
    let ghost b3 = context.reader.remaining();
    assert(b3 =~= b2.skip(context.reader.pos() - p0 - (b.len() - b2.len())));
    let payload = match context.reader.bytes(len as i64) {
        Ok(p) => p,
        Err(e) => return Err(e),
    };
    Ok(FieldEntry { id, tag, payload })
}

/// Opens a struct for reading: in compatible mode, collects its entry table;
/// in schema-consistent mode, an empty table.
pub fn read_struct_begin(context: &mut ReadContext) -> (r: Result<FieldTable, Error>)
    requires
        old(context).reader.wf(),
    ensures
        final(context).reader.wf(),
        final(context).mode == old(context).mode,
        final(context).reader.data() == old(context).reader.data(),
        old(context).mode == Mode::SchemaConsistent ==> (r matches Ok(t) && t@.len() == 0
            && final(context).reader.pos() == old(context).reader.pos()),
        old(context).mode == Mode::Compatible ==> match parse_table(old(context).reader.remaining()) {
            Ok((s, n)) => r matches Ok(t) && t@ == s && final(context).reader.pos() == old(
                context,
            ).reader.pos() + n,
            Err(e) => r == Err::<FieldTable, Error>(e),
        },
{
    if context.mode == Mode::SchemaConsistent {
        let t = FieldTable { entries: Vec::new() };
        return Ok(t);
    }
    let ghost b0 = context.reader.remaining();
    let ghost p0 = context.reader.pos();
    proof {
        lemma_parse_var_int32_len(b0);
    }
    let count = match context.reader.var_int32() {
        Ok(c) => c,
        Err(e) => return Err(e),
    };
    if count < 0 {
        return Err(Error::InvalidLength);
    }
    let ghost n0: nat = (context.reader.pos() - p0) as nat;
    let ghost b1 = context.reader.remaining();
    assert(b1 =~= b0.skip(n0 as int));
    let mut entries: Vec<FieldEntry> = Vec::new();
    let mut j: i32 = 0;
    while j < count
        invariant
            context.reader.wf(),
            context.mode == old(context).mode,
            context.mode == Mode::Compatible,
            context.reader.data() == old(context).reader.data(),
            0 <= j <= count,
            context.reader.pos() >= p0 + n0,
            b0 == old(context).reader.remaining(),
            p0 == old(context).reader.pos(),
            parse_var_int32(b0) == Ok::<(i32, nat), Error>((count, n0)),
            b1 == b0.skip(n0 as int),
            b1 == context.reader.data().skip((p0 + n0) as int),
            parse_field_entries(b1, count as nat) == prepend_fields(
                entries@.map_values(|e: FieldEntry| entry_model(e)),
                (context.reader.pos() - p0 - n0) as nat,
                parse_field_entries(context.reader.remaining(), (count - j) as nat),
            ),
        decreases count - j,
    {
        let ghost rem = context.reader.remaining();
        let ghost q0 = context.reader.pos();
        let ghost before = entries@.map_values(|e: FieldEntry| entry_model(e));
        let e = match read_field_entry(context) {
            Ok(e) => e,
            Err(err) => {
                assert(parse_field_entries(rem, (count - j) as nat) == Err::<
                    (Seq<(i32, u8, Seq<u8>)>, nat),
                    Error,
                >(err));
                return Err(err);
            },
        };
        assert(context.reader.remaining() =~= rem.skip(context.reader.pos() - q0));
        let ghost x = entry_model(e);
        entries.push(e);
        proof {
            let after = entries@.map_values(|e: FieldEntry| entry_model(e));
            assert(after =~= before.push(x));
            match parse_field_entries(context.reader.remaining(), (count - j - 1) as nat) {
                Ok((q, m)) => {
                    assert(before + (seq![x] + q) =~= after + q);
                },
                Err(_) => {},
            }
        }
        j = j + 1;
    }
    let t = FieldTable { entries };
    assert(t@ + Seq::<(i32, u8, Seq<u8>)>::empty() =~= t@);
    Ok(t)
}

/// `p` and `n` in front of a successful result; a failure stays as it is.
pub open spec fn prepend_fields(
    p: Seq<(i32, u8, Seq<u8>)>,
    n: nat,
    r: Result<(Seq<(i32, u8, Seq<u8>)>, nat), Error>,
) -> Result<(Seq<(i32, u8, Seq<u8>)>, nat), Error> {
    match r {
        Ok((q, m)) => Ok((p + q, n + m)),
        Err(e) => Err(e),
    }
}

/// Reads field `id` of type `T`: the next value in schema-consistent mode;
/// in compatible mode, the value of the table's entry for `id`, or the
/// type's default when there is none.
pub fn read_field<T: Serializer>(context: &mut ReadContext, table: &FieldTable, id: i32) -> (r:
    Result<T, Error>)
    requires
        old(context).reader.wf(),
    ensures
        old(context).mode == Mode::SchemaConsistent ==> read_result::<T>(
            T::parse(old(context).reader.remaining()),
            r,
            *old(context),
            *final(context),
        ),
        old(context).mode == Mode::Compatible ==> *final(context) == *old(context),
        old(context).mode == Mode::Compatible ==> match field_value::<T>(table@, id) {
            Ok(v) => r matches Ok(x) && x@ == v,
            Err(e) => r == Err::<T, Error>(e),
        },
{
    if context.mode == Mode::SchemaConsistent {
        return T::read(context);
    }
    let n = table.entries.len();
    let mut i: usize = 0;
    assert(table@.skip(0) =~= table@);
    while i < n
        invariant
            context.mode == Mode::Compatible,
            *context == *old(context),
            n == table@.len(),
            i <= n,
            lookup(table@, id) == lookup(table@.skip(i as int), id),
        decreases n - i,
    {
        let e = &table.entries[i];
        assert(table@.skip(i as int)[0] == entry_model(*e));
        if e.id == id {
            if e.tag != T::ty().code() {
                return Err(Error::TypeMismatch);
            }
            let mut sub = ReadContext::new(e.payload.clone(), Mode::Compatible);
            assert(sub.reader.remaining() =~= e.payload@);
            return match T::read(&mut sub) {
                Ok(v) => Ok(v),
                Err(err) => Err(err),
            };
        }
        assert(table@.skip(i as int).drop_first() =~= table@.skip(i + 1));
        i = i + 1;
    }
    Ok(T::default_value())
}

/// Reading the table of a compatible-mode struct gives back the entries that
/// were written, whatever follows them.
pub proof fn lemma_table_round_trip(s: Seq<(i32, u8, Seq<u8>)>, rest: Seq<u8>)
    requires
        s.len() <= i32::MAX,
        forall|i: int| 0 <= i < s.len() ==> (#[trigger] s[i]).2.len() <= i32::MAX,
    ensures
        parse_table(table_wire(s) + rest) == Ok::<(Seq<(i32, u8, Seq<u8>)>, nat), Error>(
            (s, table_wire(s).len()),
        ),
{
    let c = s.len() as i32;
    let ew = field_entries_wire(s);
    let b = table_wire(s) + rest;
    lemma_var_int32_round_trip(c, ew + rest);
    assert(b =~= var_int32_bytes(c) + (ew + rest));
    assert(b.skip(var_int32_bytes(c).len() as int) =~= ew + rest);
    lemma_field_entries_round_trip(s, rest);
}

proof fn lemma_field_entries_round_trip(s: Seq<(i32, u8, Seq<u8>)>, rest: Seq<u8>)
    requires
        forall|i: int| 0 <= i < s.len() ==> (#[trigger] s[i]).2.len() <= i32::MAX,
    ensures
        parse_field_entries(field_entries_wire(s) + rest, s.len()) == Ok::<
            (Seq<(i32, u8, Seq<u8>)>, nat),
            Error,
        >((s, field_entries_wire(s).len())),
    decreases s.len(),
{
    if s.len() == 0 {
        assert(s =~= Seq::<(i32, u8, Seq<u8>)>::empty());
    } else {
        let f = s[0];
        let t = s.drop_first();
        assert(forall|i: int| 0 <= i < t.len() ==> t[i] == s[i + 1]);
        lemma_field_entries_round_trip(t, rest);
        let tail = field_entries_wire(t) + rest;
        let b = field_entries_wire(s) + rest;
        let n1 = field_entry_wire(f).len();
        assert(b =~= field_entry_wire(f) + tail);
        lemma_field_entry_round_trip(f, tail);
        assert(b.skip(n1 as int) =~= tail);
        assert(seq![f] + t =~= s);
        assert(field_entries_wire(s).len() == n1 + field_entries_wire(t).len());
    }
}

proof fn lemma_field_entry_round_trip(f: (i32, u8, Seq<u8>), tail: Seq<u8>)
    requires
        f.2.len() <= i32::MAX,
    ensures
        parse_field_entry(field_entry_wire(f) + tail) == Ok::<((i32, u8, Seq<u8>), nat), Error>(
            (f, field_entry_wire(f).len()),
        ),
{
    let b = field_entry_wire(f) + tail;
    let idw = var_int32_bytes(f.0);
    let lw = var_int32_bytes(f.2.len() as i32);
    let after_id = seq![f.1] + lw + f.2 + tail;
    assert(b =~= idw + after_id);
    lemma_var_int32_round_trip(f.0, after_id);
    let b1 = b.skip(idw.len() as int);
    assert(b1 =~= after_id);
    let b2 = b1.skip(1);
    assert(b2 =~= lw + (f.2 + tail));
    lemma_var_int32_round_trip(f.2.len() as i32, f.2 + tail);
    let b3 = b2.skip(lw.len() as int);
    assert(b3 =~= f.2 + tail);
    assert(b3.take(f.2.len() as int) =~= f.2);
}

/// Identifiers of `s` are pairwise distinct.
pub open spec fn ids_unique(s: Seq<(i32, u8, Seq<u8>)>) -> bool {
    forall|i: int, j: int| 0 <= i < j < s.len() ==> s[i].0 != s[j].0
}

proof fn lemma_lookup_at(s: Seq<(i32, u8, Seq<u8>)>, i: int)
    requires
        ids_unique(s),
        0 <= i < s.len(),
    ensures
        lookup(s, s[i].0) == Some((s[i].1, s[i].2)),
    decreases s.len(),
{
    if i > 0 {
        let t = s.drop_first();
        assert(s[0].0 != s[i].0);
        assert(t[i - 1] == s[i]);
        lemma_lookup_at(t, i - 1);
    }
}

proof fn lemma_lookup_absent(s: Seq<(i32, u8, Seq<u8>)>, id: i32)
    requires
        forall|i: int| 0 <= i < s.len() ==> (#[trigger] s[i]).0 != id,
    ensures
        lookup(s, id) is None,
    decreases s.len(),
{
    if s.len() > 0 {
        let t = s.drop_first();
        assert(forall|i: int| 0 <= i < t.len() ==> t[i] == s[i + 1]);
        lemma_lookup_absent(t, id);
    }
}

/// Schema evolution in compatible mode. A writer's struct is read back as
/// its entry table, from which a reader built from another version of the
/// struct takes what it declares: a field the writer wrote with value `v`
/// of type `T` decodes to `v`, whatever other fields the writer added or the
/// reader left out; a field the writer did not write takes `T`'s default.
pub proof fn lemma_compatible_evolution<T: Serializer>(
    written: Seq<(i32, u8, Seq<u8>)>,
    rest: Seq<u8>,
    id: i32,
    v: T::V,
)
    requires
        written.len() <= i32::MAX,
        forall|i: int| 0 <= i < written.len() ==> (#[trigger] written[i]).2.len() <= i32::MAX,
        ids_unique(written),
        T::supported(v),
    ensures
        parse_table(table_wire(written) + rest) == Ok::<(Seq<(i32, u8, Seq<u8>)>, nat), Error>(
            (written, table_wire(written).len()),
        ),
        written.contains((id, tag_code(T::tag()), T::wire(v))) ==> field_value::<T>(written, id)
            == Ok::<T::V, Error>(v),
        (forall|i: int| 0 <= i < written.len() ==> (#[trigger] written[i]).0 != id)
            ==> field_value::<T>(written, id) == Ok::<T::V, Error>(T::default_model()),
{
    lemma_table_round_trip(written, rest);
    if written.contains((id, tag_code(T::tag()), T::wire(v))) {
        let i = choose|i: int| 0 <= i < written.len() && written[i] == (id, tag_code(T::tag()), T::wire(v));
        lemma_lookup_at(written, i);
        T::lemma_round_trip(v, Seq::empty());
        assert(T::wire(v) + Seq::<u8>::empty() =~= T::wire(v));
    }
    if forall|i: int| 0 <= i < written.len() ==> (#[trigger] written[i]).0 != id {
        lemma_lookup_absent(written, id);
    }
}

} // verus!
