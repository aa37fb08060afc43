//! Key-unique mappings and their encoding: an entry count, then each key
//! followed by its value. A reader applies the entries in stream order, a
//! later entry for a key replacing an earlier one.
//!
//! A mapping keeps its entries in the order their keys first came in, so the
//! bytes written are a function of its entries; only the associations, not the
//! bytes, are the same for two mappings filled in different orders.
use vstd::prelude::*;

use crate::error::Error;
use crate::serializer::Serializer;
use crate::types::{FieldType, ReadContext, WriteContext, SIZE_OF_REF_AND_TYPE};
use crate::varint::{
    lemma_parse_var_int32_len, lemma_var_int32_round_trip, lemma_var_int32_truncated,
    parse_var_int32, var_int32_bytes,
};

verus! {

/// A key type: its values can be compared by model.
pub trait MapKey: Serializer {
    fn key_eq(&self, other: &Self) -> (r: bool)
        ensures
            r == (self@ == other@),
    ;
}

impl MapKey for String {
    fn key_eq(&self, other: &Self) -> (r: bool) {
        *self == *other
    }
}

impl MapKey for i32 {
    fn key_eq(&self, other: &Self) -> (r: bool) {
        *self == *other
    }
}

/// No two entries share a key.
pub open spec fn keys_unique<A, B>(s: Seq<(A, B)>) -> bool {
    forall|i: int, j: int| 0 <= i < j < s.len() ==> s[i].0 != s[j].0
}

/// `s` with `(k, v)` put in: the entry for `k` takes the new value in place,
/// or the pair goes at the end.
pub open spec fn insert_entry<A, B>(s: Seq<(A, B)>, k: A, v: B) -> Seq<(A, B)>
    decreases s.len(),
{
    if s.len() == 0 {
        seq![(k, v)]
    } else if s[0].0 == k {
        s.update(0, (k, v))
    } else {
        seq![s[0]] + insert_entry(s.drop_first(), k, v)
    }
}

/// The entries that putting in each pair of `p` in turn leaves.
pub open spec fn insert_all<A, B>(p: Seq<(A, B)>) -> Seq<(A, B)>
    decreases p.len(),
{
    if p.len() == 0 {
        Seq::empty()
    } else {
        insert_entry(insert_all(p.drop_last()), p.last().0, p.last().1)
    }
}

/// The association from keys to values that putting in each pair of `p` in
/// turn yields.
pub open spec fn as_map<A, B>(p: Seq<(A, B)>) -> Map<A, B>
    decreases p.len(),
{
    if p.len() == 0 {
        Map::empty()
    } else {
        as_map(p.drop_last()).insert(p.last().0, p.last().1)
    }
}

proof fn lemma_insert_found<A, B>(s: Seq<(A, B)>, k: A, v: B, i: int)
    requires
        0 <= i < s.len(),
        s[i].0 == k,
        forall|j: int| 0 <= j < i ==> s[j].0 != k,
    ensures
        insert_entry(s, k, v) == s.update(i, (k, v)),
    decreases s.len(),
{
    if i > 0 {
        lemma_insert_found(s.drop_first(), k, v, i - 1);
        assert(insert_entry(s, k, v) =~= s.update(i, (k, v)));
    }
}

proof fn lemma_insert_absent<A, B>(s: Seq<(A, B)>, k: A, v: B)
    requires
        forall|j: int| 0 <= j < s.len() ==> s[j].0 != k,
    ensures
        insert_entry(s, k, v) == s.push((k, v)),
    decreases s.len(),
{
    if s.len() > 0 {
        lemma_insert_absent(s.drop_first(), k, v);
        assert(insert_entry(s, k, v) =~= s.push((k, v)));
    }
}

/// Putting in the pairs of a key-unique sequence in turn rebuilds it.
proof fn lemma_insert_all_unique<A, B>(p: Seq<(A, B)>)
    requires
        keys_unique(p),
    ensures
        insert_all(p) == p,
    decreases p.len(),
{
    if p.len() > 0 {
        let q = p.drop_last();
        lemma_insert_all_unique(q);
        lemma_insert_absent(q, p.last().0, p.last().1);
        assert(q.push(p.last()) =~= p);
    }
}

proof fn lemma_as_map_at<A, B>(s: Seq<(A, B)>, i: int)
    requires
        keys_unique(s),
        0 <= i < s.len(),
    ensures
        as_map(s).contains_key(s[i].0),
        as_map(s)[s[i].0] == s[i].1,
    decreases s.len(),
{
    if i < s.len() - 1 {
        let q = s.drop_last();
        assert(q[i] == s[i]);
        lemma_as_map_at(q, i);
        assert(s.last().0 != s[i].0);
    }
}

proof fn lemma_as_map_absent<A, B>(s: Seq<(A, B)>, k: A)
    requires
        forall|j: int| 0 <= j < s.len() ==> s[j].0 != k,
    ensures
        !as_map(s).contains_key(k),
    decreases s.len(),
{
    if s.len() > 0 {
        let q = s.drop_last();
        assert(forall|j: int| 0 <= j < q.len() ==> q[j] == s[j]);
        lemma_as_map_absent(q, k);
    }
}

proof fn lemma_as_map_update<A, B>(s: Seq<(A, B)>, i: int, k: A, v: B)
    requires
        keys_unique(s),
        0 <= i < s.len(),
        s[i].0 == k,
    ensures
        as_map(s.update(i, (k, v))) == as_map(s).insert(k, v),
    decreases s.len(),
{
    let q = s.drop_last();
    let u = s.update(i, (k, v));
    if i == s.len() - 1 {
        assert(u.drop_last() =~= q);
        assert(as_map(s).insert(k, v) =~= as_map(q).insert(k, v));
    } else {
        assert(u.drop_last() =~= q.update(i, (k, v)));
        assert(q[i] == s[i]);
        lemma_as_map_update(q, i, k, v);
        assert(s.last().0 != k);
        assert(as_map(u) =~= as_map(s).insert(k, v));
    }
}

/// The models of a list of entries.
pub open spec fn pair_views<K: View, V: View>(e: Seq<(K, V)>) -> Seq<(K::V, V::V)> {
    e.map_values(|p: (K, V)| (p.0@, p.1@))
}

/// A mapping whose keys are unique, kept in the order they first came in.
pub struct Mapping<K, V> {
    entries: Vec<(K, V)>,
}

impl<K: View, V: View> View for Mapping<K, V> {
    type V = Seq<(K::V, V::V)>;

    closed spec fn view(&self) -> Seq<(K::V, V::V)> {
        pair_views(self.entries@)
    }
}

impl<K: MapKey, V: Serializer> Mapping<K, V> {
    pub open spec fn wf(&self) -> bool {
        keys_unique(self@)
    }

    pub fn new() -> (r: Self)
        ensures
            r@ == Seq::<(K::V, V::V)>::empty(),
            r.wf(),
    {
        let r = Mapping { entries: Vec::new() };
        assert(r@ =~= Seq::<(K::V, V::V)>::empty());
        r
    }

    pub fn len(&self) -> (r: usize)
        ensures
            r == self@.len(),
    {
        self.entries.len()
    }

    /// Puts in `(k, v)`; an entry with the same key takes the new value.
    pub fn insert(&mut self, k: K, v: V)
        requires
            old(self).wf(),
        ensures
            final(self).wf(),
            final(self)@ == insert_entry(old(self)@, k@, v@),
            as_map(final(self)@) == as_map(old(self)@).insert(k@, v@),
    {
        let ghost s = self@;
        let mut i: usize = 0;
        while i < self.entries.len()
            invariant
                self@ == s,
                s == old(self)@,
                keys_unique(s),
                i <= s.len(),
                forall|j: int| 0 <= j < i ==> s[j].0 != k@,
            decreases s.len() - i,
        {
            if self.entries[i].0.key_eq(&k) {
                proof {
                    lemma_insert_found(s, k@, v@, i as int);
                    lemma_as_map_update(s, i as int, k@, v@);
                }
                self.entries[i] = (k, v);
                assert(self@ =~= s.update(i as int, (k@, v@)));
                assert forall|a: int, b: int| 0 <= a < b < self@.len() implies self@[a].0
                    != self@[b].0 by {
                    assert(self@[a].0 == s[a].0);
                    assert(self@[b].0 == s[b].0);
                }
                return;
            }
            i = i + 1;
        }
        proof {
            lemma_insert_absent(s, k@, v@);
            assert(s.push((k@, v@)).drop_last() =~= s);
        }
        self.entries.push((k, v));
        assert(self@ =~= s.push((k@, v@)));
    }

    /// The value stored for a key with the model of `k`, if any.
    pub fn get(&self, k: &K) -> (r: Option<&V>)
        requires
            self.wf(),
        ensures
            r is None <==> !as_map(self@).contains_key(k@),
            r matches Some(v) ==> as_map(self@)[k@] == v@,
    {
        let mut i: usize = 0;
        while i < self.entries.len()
            invariant
                self.wf(),
                i <= self@.len(),
                forall|j: int| 0 <= j < i ==> self@[j].0 != k@,
            decreases self@.len() - i,
        {
            if self.entries[i].0.key_eq(k) {
                proof {
                    lemma_as_map_at(self@, i as int);
                }
                return Some(&self.entries[i].1);
            }
            i = i + 1;
        }
        proof {
            lemma_as_map_absent(self@, k@);
        }
        None
    }
}

/// The encoding of one entry.
pub open spec fn entry_wire<K: Serializer, V: Serializer>(e: (K::V, V::V)) -> Seq<u8> {
    K::wire(e.0) + V::wire(e.1)
}

/// The encoding of a list of entries, front to back.
pub open spec fn entries_wire<K: Serializer, V: Serializer>(s: Seq<(K::V, V::V)>) -> Seq<u8>
    decreases s.len(),
{
    if s.len() == 0 {
        Seq::empty()
    } else {
        entry_wire::<K, V>(s[0]) + entries_wire::<K, V>(s.drop_first())
    }
}

/// Reads `count` entries off the front of `b`, in stream order.
pub open spec fn parse_entries<K: Serializer, V: Serializer>(b: Seq<u8>, count: nat) -> Result<
    (Seq<(K::V, V::V)>, nat),
    Error,
>
    decreases count,
{
    if count == 0 {
        Ok((Seq::empty(), 0))
    } else {
        match K::parse(b) {
            Ok((k, n1)) => match V::parse(b.skip(n1 as int)) {
                Ok((v, n2)) => match parse_entries::<K, V>(b.skip((n1 + n2) as int), (count - 1) as nat) {
                    Ok((p, n3)) => Ok((seq![(k, v)] + p, n1 + n2 + n3)),
                    Err(e) => Err(e),
                },
                Err(e) => Err(e),
            },
            Err(e) => Err(e),
        }
    }
}

/// `p` and `n` in front of a successful result; a failure stays as it is.
pub open spec fn prepend_entries<A>(p: Seq<A>, n: nat, r: Result<(Seq<A>, nat), Error>) -> Result<
    (Seq<A>, nat),
    Error,
> {
    match r {
        Ok((q, m)) => Ok((p + q, n + m)),
        Err(e) => Err(e),
    }
}

/// Reading a mapping: the entry count, then the entries, applied in order.
pub open spec fn map_parse<K: Serializer, V: Serializer>(b: Seq<u8>) -> Result<
    (Seq<(K::V, V::V)>, nat),
    Error,
> {
    match parse_var_int32(b) {
        Ok((count, n)) => if count < 0 {
            Err(Error::InvalidLength)
        } else {
            match parse_entries::<K, V>(b.skip(n as int), count as nat) {
                Ok((p, m)) => Ok((insert_all(p), n + m)),
                Err(e) => Err(e),
            }
        },
        Err(e) => Err(e),
    }
}

proof fn lemma_entries_wire_push<K: Serializer, V: Serializer>(
    s: Seq<(K::V, V::V)>,
    e: (K::V, V::V),
)
    ensures
        entries_wire::<K, V>(s.push(e)) == entries_wire::<K, V>(s) + entry_wire::<K, V>(e),
    decreases s.len(),
{
    if s.len() > 0 {
        lemma_entries_wire_push::<K, V>(s.drop_first(), e);
        assert(s.push(e).drop_first() =~= s.drop_first().push(e));
        assert(entries_wire::<K, V>(s.push(e)) =~= entries_wire::<K, V>(s) + entry_wire::<K, V>(
            e,
        ));
    } else {
        let one = s.push(e);
        assert(one.drop_first() =~= Seq::<(K::V, V::V)>::empty());
        assert(entries_wire::<K, V>(one.drop_first()) == Seq::<u8>::empty());
        assert(one[0] == e);
        assert(entries_wire::<K, V>(one) == entry_wire::<K, V>(e) + Seq::<u8>::empty());
        assert(entries_wire::<K, V>(one) =~= entry_wire::<K, V>(e));
        assert(entries_wire::<K, V>(s) == Seq::<u8>::empty());
        assert(entries_wire::<K, V>(s) + entry_wire::<K, V>(e) =~= entry_wire::<K, V>(e));
    }
}

proof fn lemma_entries_round_trip<K: Serializer, V: Serializer>(
    s: Seq<(K::V, V::V)>,
    rest: Seq<u8>,
)
    requires
        forall|i: int| 0 <= i < s.len() ==> K::supported(#[trigger] s[i].0) && V::supported(
            s[i].1,
        ),
    ensures
        parse_entries::<K, V>(entries_wire::<K, V>(s) + rest, s.len()) == Ok::<
            (Seq<(K::V, V::V)>, nat),
            Error,
        >((s, entries_wire::<K, V>(s).len())),
    decreases s.len(),
{
    if s.len() > 0 {
        let t = s.drop_first();
        let kw = K::wire(s[0].0);
        let vw = V::wire(s[0].1);
        let tail = entries_wire::<K, V>(t) + rest;
        let b = entries_wire::<K, V>(s) + rest;
        assert(forall|i: int| 0 <= i < t.len() ==> t[i] == s[i + 1]);
        lemma_entries_round_trip::<K, V>(t, rest);
        K::lemma_round_trip(s[0].0, vw + tail);
        V::lemma_round_trip(s[0].1, tail);
        assert(b =~= kw + (vw + tail));
        assert(b.skip(kw.len() as int) =~= vw + tail);
        assert(b.skip((kw.len() + vw.len()) as int) =~= tail);
        assert(K::parse(b) == Ok::<(K::V, nat), Error>((s[0].0, kw.len())));
        assert(V::parse(b.skip(kw.len() as int)) == Ok::<(V::V, nat), Error>((s[0].1, vw.len())));
        assert(t.len() == (s.len() - 1) as nat);
        assert(parse_entries::<K, V>(tail, t.len()) == Ok::<(Seq<(K::V, V::V)>, nat), Error>(
            (t, entries_wire::<K, V>(t).len()),
        ));
        assert(seq![(s[0].0, s[0].1)] + t =~= s);
        assert(entries_wire::<K, V>(s).len() == kw.len() + vw.len() + entries_wire::<K, V>(t).len());
    } else {
        assert(s =~= Seq::<(K::V, V::V)>::empty());
    }
}

proof fn lemma_entries_truncated<K: Serializer, V: Serializer>(s: Seq<(K::V, V::V)>, k: int)
    requires
        forall|i: int| 0 <= i < s.len() ==> K::supported(#[trigger] s[i].0) && V::supported(
            s[i].1,
        ),
        0 <= k < entries_wire::<K, V>(s).len(),
    ensures
        parse_entries::<K, V>(entries_wire::<K, V>(s).take(k), s.len()) == Err::<
            (Seq<(K::V, V::V)>, nat),
            Error,
        >(Error::BufferUnderrun),
    decreases s.len(),
{
    let t = s.drop_first();
    let kw = K::wire(s[0].0);
    let vw = V::wire(s[0].1);
    let w = entries_wire::<K, V>(s);
    let b = w.take(k);
    assert(w =~= kw + (vw + entries_wire::<K, V>(t)));
    if k < kw.len() {
        K::lemma_truncated(s[0].0, k);
        assert(b =~= kw.take(k));
    } else {
        let b1 = b.skip(kw.len() as int);
        K::lemma_round_trip(s[0].0, b1);
        assert(b =~= kw + b1);
        if k < kw.len() + vw.len() {
            V::lemma_truncated(s[0].1, k - kw.len());
            assert(b1 =~= vw.take(k - kw.len()));
        } else {
            let b2 = b1.skip(vw.len() as int);
            V::lemma_round_trip(s[0].1, b2);
            assert(b1 =~= vw + b2);
            assert(forall|i: int| 0 <= i < t.len() ==> t[i] == s[i + 1]);
            lemma_entries_truncated::<K, V>(t, k - kw.len() - vw.len());
            assert(b2 =~= entries_wire::<K, V>(t).take(k - kw.len() - vw.len()));
            assert(b.skip((kw.len() + vw.len()) as int) =~= b2);
        }
    }
}

/// The pre-allocation hint for `n` entries: a key and a value per entry,
/// each with its reference header; no hint when that does not fit.
fn entries_reservation(key_space: usize, value_space: usize, n: usize) -> (r: usize)
    ensures
        (key_space + SIZE_OF_REF_AND_TYPE) * n + (value_space + SIZE_OF_REF_AND_TYPE) * n
            <= usize::MAX ==> r == (key_space + SIZE_OF_REF_AND_TYPE) * n + (value_space
            + SIZE_OF_REF_AND_TYPE) * n,
{
    let ghost a: int = key_space + SIZE_OF_REF_AND_TYPE;
    let ghost b: int = value_space + SIZE_OF_REF_AND_TYPE;
    proof {
        lemma_mul_at_least(a, n as int);
        lemma_mul_at_least(b, n as int);
    }
    if n == 0 {
        assert(a * 0 + b * 0 == 0) by (nonlinear_arith);
        return 0;
    }
    let ka = match key_space.checked_add(SIZE_OF_REF_AND_TYPE) {
        Some(x) => x,
        None => return 0,
    };
    let vb = match value_space.checked_add(SIZE_OF_REF_AND_TYPE) {
        Some(x) => x,
        None => return 0,
    };
    let an = match ka.checked_mul(n) {
        Some(x) => x,
        None => return 0,
    };
    let bn = match vb.checked_mul(n) {
        Some(x) => x,
        None => return 0,
    };
    match an.checked_add(bn) {
        Some(x) => x,
        None => 0,
    }
}

proof fn lemma_mul_at_least(a: int, n: int)
    requires
        a >= 0,
        n >= 0,
    ensures
        a * n >= 0,
        n >= 1 ==> a * n >= a,
{
    assert(a * n >= 0) by (nonlinear_arith)
        requires
            a >= 0,
            n >= 0,
    ;
    assert(n >= 1 ==> a * n >= a) by (nonlinear_arith)
        requires
            a >= 0,
            n >= 0,
    ;
}

impl<K: MapKey, V: Serializer> Serializer for Mapping<K, V> {
    open spec fn wire(v: Seq<(K::V, V::V)>) -> Seq<u8> {
        var_int32_bytes(v.len() as i32) + entries_wire::<K, V>(v)
    }

    open spec fn parse(b: Seq<u8>) -> Result<(Seq<(K::V, V::V)>, nat), Error> {
        map_parse::<K, V>(b)
    }

    open spec fn supported(v: Seq<(K::V, V::V)>) -> bool {
        &&& keys_unique(v)
        &&& v.len() <= i32::MAX
        &&& forall|i: int| 0 <= i < v.len() ==> K::supported(#[trigger] v[i].0) && V::supported(
            v[i].1,
        )
    }

    open spec fn tag() -> FieldType {
        FieldType::MAP
    }

    open spec fn default_model() -> Seq<(K::V, V::V)> {
        Seq::empty()
    }

    /// The size of the 32-bit entry count.
    open spec fn reserved() -> nat {
        4
    }

    fn reserved_space() -> usize {
        4
    }

    fn ty() -> (r: FieldType) {
        FieldType::MAP
    }

    fn default_value() -> (r: Self) {
        Mapping::new()
    }

    fn write(&self, context: &mut WriteContext) {
        let n = self.entries.len();
        context.writer.var_int32(n as i32);
        let space = entries_reservation(K::reserved_space(), V::reserved_space(), n);
        context.writer.reserve(space);
        let ghost start = context.writer@;
        let mut i: usize = 0;
        while i < n
            invariant
                n == self@.len(),
                i <= n,
                Self::supported(self@),
                context.mode == old(context).mode,
                context.writer@ == start + entries_wire::<K, V>(self@.take(i as int)),
            decreases n - i,
        {
            let ghost before = context.writer@;
            assert(K::supported(self@[i as int].0));
            self.entries[i].0.write(context);
            self.entries[i].1.write(context);
            proof {
                let e = self@[i as int];
                lemma_entries_wire_push::<K, V>(self@.take(i as int), e);
                assert(self@.take(i + 1) =~= self@.take(i as int).push(e));
                assert(context.writer@ =~= start + entries_wire::<K, V>(self@.take(i + 1)));
            }
            i = i + 1;
        }
        assert(self@.take(n as int) =~= self@);
        assert(context.writer@ =~= old(context).writer@ + Self::wire(self@));
    }

    fn read(context: &mut ReadContext) -> (r: Result<Self, Error>) {
        let ghost b0 = context.reader.remaining();
        let ghost p0 = context.reader.pos();
        proof {
            lemma_parse_var_int32_len(b0);
        }
        let count = match context.reader.var_int32() {
            Ok(c) => c,
            Err(e) => return Err(e),
        };
        if count < 0 {
            return Err(Error::InvalidLength);
        }
        let ghost n0: nat = (context.reader.pos() - p0) as nat;
        let ghost b1 = context.reader.remaining();
        assert(b1 =~= b0.skip(n0 as int));
        let mut result: Mapping<K, V> = Mapping::new();
        let ghost mut pairs: Seq<(K::V, V::V)> = Seq::empty();
        let mut j: i32 = 0;
        while j < count
            invariant
                context.reader.wf(),
                context.mode == old(context).mode,
                context.reader.data() == old(context).reader.data(),
                0 <= j <= count,
                context.reader.pos() >= p0 + n0,
                b1 == context.reader.data().skip((p0 + n0) as int),
                b0 == old(context).reader.remaining(),
                p0 == old(context).reader.pos(),
                parse_var_int32(b0) == Ok::<(i32, nat), Error>((count, n0)),
                b1 == b0.skip(n0 as int),
                parse_entries::<K, V>(b1, count as nat) == prepend_entries(
                    pairs,
                    (context.reader.pos() - p0 - n0) as nat,
                    parse_entries::<K, V>(context.reader.remaining(), (count - j) as nat),
                ),
                result@ == insert_all(pairs),
                result.wf(),
            decreases count - j,
        {
            let ghost rem = context.reader.remaining();
            let ghost q0 = context.reader.pos();
            let k = match K::read(context) {
                Ok(k) => k,
                Err(e) => {
                    assert(parse_entries::<K, V>(rem, (count - j) as nat) == Err::<
                        (Seq<(K::V, V::V)>, nat),
                        Error,
                    >(e));
                    return Err(e);
                },
            };
            let ghost q1 = context.reader.pos();
            assert(context.reader.remaining() =~= rem.skip(q1 - q0));
            let v = match V::read(context) {
                Ok(v) => v,
                Err(e) => {
                    assert(parse_entries::<K, V>(rem, (count - j) as nat) == Err::<
                        (Seq<(K::V, V::V)>, nat),
                        Error,
                    >(e));
                    return Err(e);
                },
            };
            let ghost q2 = context.reader.pos();
            assert(context.reader.remaining() =~= rem.skip(q2 - q0));
            proof {
                let x = (k@, v@);
                assert(pairs.push(x).drop_last() =~= pairs);
                match parse_entries::<K, V>(context.reader.remaining(), (count - j - 1) as nat) {
                    Ok((q, m)) => {
                        assert(pairs + (seq![x] + q) =~= pairs.push(x) + q);
                    },
                    Err(_) => {},
                }
                pairs = pairs.push(x);
            }
            result.insert(k, v);
            j = j + 1;
        }
        assert(pairs + Seq::<(K::V, V::V)>::empty() =~= pairs);
        Ok(result)
    }

    proof fn lemma_round_trip(v: Seq<(K::V, V::V)>, rest: Seq<u8>) {
        let c = v.len() as i32;
        let ew = entries_wire::<K, V>(v);
        let b = Self::wire(v) + rest;
        lemma_var_int32_round_trip(c, ew + rest);
        assert(b =~= var_int32_bytes(c) + (ew + rest));
        assert(b.skip(var_int32_bytes(c).len() as int) =~= ew + rest);
        lemma_entries_round_trip::<K, V>(v, rest);
        lemma_insert_all_unique(v);
    }

    proof fn lemma_truncated(v: Seq<(K::V, V::V)>, k: int) {
        let c = v.len() as i32;
        let w = Self::wire(v);
        let n = var_int32_bytes(c).len();
        if k < n {
            lemma_var_int32_truncated(c, k);
            assert(w.take(k) =~= var_int32_bytes(c).take(k));
        } else {
            let b1 = w.take(k).skip(n as int);
            lemma_var_int32_round_trip(c, b1);
            assert(w.take(k) =~= var_int32_bytes(c) + b1);
            lemma_entries_truncated::<K, V>(v, k - n);
            assert(b1 =~= entries_wire::<K, V>(v).take(k - n));
        }
    }
}

/// Two mappings with the same associations, whatever order their entries
/// went in, read back as mappings with the same associations (their bytes may
/// differ).
pub proof fn lemma_map_order_independent<K: MapKey, V: Serializer>(
    m1: Seq<(K::V, V::V)>,
    m2: Seq<(K::V, V::V)>,
)
    requires
        Mapping::<K, V>::supported(m1),
        Mapping::<K, V>::supported(m2),
        as_map(m1) == as_map(m2),
    ensures
        map_parse::<K, V>(Mapping::<K, V>::wire(m1)) matches Ok((r1, n1)) && map_parse::<K, V>(
            Mapping::<K, V>::wire(m2),
        ) matches Ok((r2, n2)) && as_map(r1) == as_map(r2),
{
    Mapping::<K, V>::lemma_round_trip(m1, Seq::empty());
    Mapping::<K, V>::lemma_round_trip(m2, Seq::empty());
    assert(Mapping::<K, V>::wire(m1) + Seq::<u8>::empty() =~= Mapping::<K, V>::wire(m1));
    assert(Mapping::<K, V>::wire(m2) + Seq::<u8>::empty() =~= Mapping::<K, V>::wire(m2));
}

} // verus!
