//! The metadata record: its model, its wire encoding, and field updates.
//!
//! Wire layout of a record: `update_authority` (32 bytes, all-zero when
//! unset), `mint` (32 bytes), then `name`, `symbol` and `uri` each as a
//! four-byte little-endian length followed by the raw bytes, then a four-byte
//! little-endian pair count followed by that many key/value pairs, each side
//! length-prefixed the same way.

use crate::bytes::{
    bytes_equal, copy_range, le_u32, lemma_u32_le_canonical, lemma_u32_le_roundtrip, read_u32_le,
    u32_le, write_u32_le,
};
use crate::Error;
use vstd::prelude::*;

verus! {

/// The unset update-authority sentinel: 32 zero bytes.
pub open spec fn zero_key() -> Seq<u8> {
    Seq::new(32, |i: int| 0u8)
}

/// The mathematical model of a record.
#[verifier::ext_equal]
pub ghost struct RecordView {
    pub update_authority: Seq<u8>,
    pub mint: Seq<u8>,
    pub name: Seq<u8>,
    pub symbol: Seq<u8>,
    pub uri: Seq<u8>,
    pub additional_fields: Seq<(Seq<u8>, Seq<u8>)>,
}

/// The metadata record held for one mint.
///
/// String fields are byte strings: the codec is length-prefix based and
/// imposes no character-set restriction.
#[derive(Debug)]
pub struct TokenMetadata {
    /// The identity allowed to update the record; 32 zero bytes when unset.
    pub update_authority: Vec<u8>,
    /// The mint this record describes; set at creation, never mutated.
    pub mint: Vec<u8>,
    pub name: Vec<u8>,
    pub symbol: Vec<u8>,
    pub uri: Vec<u8>,
    /// Open extension slots; insertion order is preserved.
    pub additional_fields: Vec<(Vec<u8>, Vec<u8>)>,
}

/// The model of a pair list.
pub open spec fn pairs_view(v: Seq<(Vec<u8>, Vec<u8>)>) -> Seq<(Seq<u8>, Seq<u8>)> {
    Seq::new(v.len(), |i: int| (v[i].0@, v[i].1@))
}

impl View for TokenMetadata {
    type V = RecordView;

    open spec fn view(&self) -> RecordView {
        RecordView {
            update_authority: self.update_authority@,
            mint: self.mint@,
            name: self.name@,
            symbol: self.symbol@,
            uri: self.uri@,
            additional_fields: pairs_view(self.additional_fields@),
        }
    }
}

/// Both identity fields hold 32 bytes.
pub open spec fn record_wf(v: RecordView) -> bool {
    &&& v.update_authority.len() == 32
    &&& v.mint.len() == 32
}

/// Every variable-length part fits its 32-bit length field.
pub open spec fn record_encodable(v: RecordView) -> bool {
    &&& record_wf(v)
    &&& v.name.len() < 0x1_0000_0000
    &&& v.symbol.len() < 0x1_0000_0000
    &&& v.uri.len() < 0x1_0000_0000
    &&& v.additional_fields.len() < 0x1_0000_0000
    &&& forall|i: int|
        0 <= i < v.additional_fields.len() ==> (#[trigger] v.additional_fields[i]).0.len()
            < 0x1_0000_0000 && v.additional_fields[i].1.len() < 0x1_0000_0000
}

/// A length-prefixed byte string.
pub open spec fn enc_bstr(s: Seq<u8>) -> Seq<u8> {
    u32_le(s.len()) + s
}

/// The concatenation of the length-prefixed pairs.
pub open spec fn enc_pairs(ps: Seq<(Seq<u8>, Seq<u8>)>) -> Seq<u8>
    decreases ps.len(),
{
    if ps.len() == 0 {
        Seq::empty()
    } else {
        enc_bstr(ps[0].0) + enc_bstr(ps[0].1) + enc_pairs(ps.drop_first())
    }
}

/// The full wire image of a record.
pub open spec fn enc_record(v: RecordView) -> Seq<u8> {
    v.update_authority + v.mint + enc_bstr(v.name) + enc_bstr(v.symbol) + enc_bstr(v.uri)
        + u32_le(v.additional_fields.len()) + enc_pairs(v.additional_fields)
}

pub proof fn lemma_enc_pairs_push(ps: Seq<(Seq<u8>, Seq<u8>)>, p: (Seq<u8>, Seq<u8>))
    ensures
        enc_pairs(ps.push(p)) == enc_pairs(ps) + enc_bstr(p.0) + enc_bstr(p.1),
    decreases ps.len(),
{
    let q = ps.push(p);
    if ps.len() == 0 {
        assert(q[0] == p);
        assert(q.drop_first() =~= Seq::<(Seq<u8>, Seq<u8>)>::empty());
        assert(enc_pairs(q.drop_first()) == Seq::<u8>::empty());
        assert(enc_pairs(q) == enc_bstr(p.0) + enc_bstr(p.1) + enc_pairs(q.drop_first()));
        assert(enc_pairs(ps) == Seq::<u8>::empty());
        assert(enc_pairs(q) =~= enc_pairs(ps) + enc_bstr(p.0) + enc_bstr(p.1));
    } else {
        lemma_enc_pairs_push(ps.drop_first(), p);
        assert(q[0] == ps[0]);
        assert(q.drop_first() =~= ps.drop_first().push(p));
        assert(enc_pairs(q) == enc_bstr(ps[0].0) + enc_bstr(ps[0].1) + enc_pairs(
            ps.drop_first().push(p),
        ));
        assert(enc_pairs(q) =~= enc_pairs(ps) + enc_bstr(p.0) + enc_bstr(p.1));
    }
}

impl TokenMetadata {
    /// Whether every variable-length part fits its 32-bit length field.
    pub fn encodable(&self) -> (r: bool)
        ensures
            record_wf(self@) ==> r == record_encodable(self@),
    {
        if self.update_authority.len() != 32 || self.mint.len() != 32 {
            return false;
        }
        if self.name.len() as u64 >= 0x1_0000_0000u64 || self.symbol.len() as u64
            >= 0x1_0000_0000u64 || self.uri.len() as u64 >= 0x1_0000_0000u64
            || self.additional_fields.len() as u64 >= 0x1_0000_0000u64 {
            return false;
        }
        let mut i: usize = 0;
        while i < self.additional_fields.len()
            invariant
                i <= self.additional_fields.len(),
                forall|j: int|
                    0 <= j < i ==> (#[trigger] self@.additional_fields[j]).0.len()
                        < 0x1_0000_0000 && self@.additional_fields[j].1.len() < 0x1_0000_0000,
            decreases self.additional_fields.len() - i,
        {
            proof {
                assert(self@.additional_fields[i as int] == (
                    self.additional_fields@[i as int].0@,
                    self.additional_fields@[i as int].1@,
                ));
            }
            if self.additional_fields[i].0.len() as u64 >= 0x1_0000_0000u64
                || self.additional_fields[i].1.len() as u64 >= 0x1_0000_0000u64 {
                return false;
            }
            i += 1;
        }
        true
    }

    /// Serializes the record into its wire image.
    ///
    /// Returns `EncodingError` exactly when some variable-length part does
    /// not fit its 32-bit length field.
    pub fn encode(&self) -> (r: Result<Vec<u8>, Error>)
        requires
            record_wf(self@),
        ensures
            match r {
                Ok(b) => record_encodable(self@) && b@ == enc_record(self@),
                Err(e) => e == Error::EncodingError && !record_encodable(self@),
            },
    {
        if !self.encodable() {
            return Err(Error::EncodingError);
        }
        let mut out: Vec<u8> = Vec::new();
        out.extend_from_slice(self.update_authority.as_slice());
        out.extend_from_slice(self.mint.as_slice());
        write_bstr(&mut out, &self.name);
        write_bstr(&mut out, &self.symbol);
        write_bstr(&mut out, &self.uri);
        write_u32_le(self.additional_fields.len() as u32, &mut out);
        let ghost base = out@;
        let mut i: usize = 0;
        while i < self.additional_fields.len()
            invariant
                i <= self.additional_fields.len(),
                record_encodable(self@),
                out@ == base + enc_pairs(self@.additional_fields.take(i as int)),
            decreases self.additional_fields.len() - i,
        {
            let ghost taken = self@.additional_fields.take(i as int);
            proof {
                assert(self@.additional_fields[i as int] == (
                    self.additional_fields@[i as int].0@,
                    self.additional_fields@[i as int].1@,
                ));
                assert(self@.additional_fields[i as int].0.len() < 0x1_0000_0000);
            }
            write_bstr(&mut out, &self.additional_fields[i].0);
            write_bstr(&mut out, &self.additional_fields[i].1);
            proof {
                lemma_enc_pairs_push(taken, self@.additional_fields[i as int]);
                assert(self@.additional_fields.take(i + 1) =~= taken.push(
                    self@.additional_fields[i as int],
                ));
                assert(out@ =~= base + enc_pairs(self@.additional_fields.take(i + 1)));
            }
            i += 1;
        }
        proof {
            assert(self@.additional_fields.take(self.additional_fields.len() as int)
                =~= self@.additional_fields);
            assert(out@ =~= enc_record(self@));
        }
        Ok(out)
    }
}

/// Appends the length-prefixed image of `s`.
fn write_bstr(out: &mut Vec<u8>, s: &Vec<u8>)
    requires
        s@.len() < 0x1_0000_0000,
    ensures
        final(out)@ == old(out)@ + enc_bstr(s@),
{
    write_u32_le(s.len() as u32, out);
    out.extend_from_slice(s.as_slice());
    proof {
        assert(final(out)@ =~= old(out)@ + enc_bstr(s@));
    }
}

/// Reads a four-byte length field from the front of `b`.
pub open spec fn dec_u32(b: Seq<u8>) -> Option<(nat, Seq<u8>)> {
    if b.len() >= 4 {
        Some((le_u32(b.take(4)), b.skip(4)))
    } else {
        None
    }
}

/// Reads a length-prefixed byte string from the front of `b`.
pub open spec fn dec_bstr(b: Seq<u8>) -> Option<(Seq<u8>, Seq<u8>)> {
    match dec_u32(b) {
        None => None,
        Some((n, r)) => if r.len() >= n {
            Some((r.take(n as int), r.skip(n as int)))
        } else {
            None
        },
    }
}

/// Reads `count` length-prefixed pairs from the front of `b`.
pub open spec fn dec_pairs(b: Seq<u8>, count: nat) -> Option<(Seq<(Seq<u8>, Seq<u8>)>, Seq<u8>)>
    decreases count,
{
    if count == 0 {
        Some((Seq::empty(), b))
    } else {
        match dec_bstr(b) {
            None => None,
            Some((k, r1)) => match dec_bstr(r1) {
                None => None,
                Some((v, r2)) => match dec_pairs(r2, (count - 1) as nat) {
                    None => None,
                    Some((ps, r3)) => Some((seq![(k, v)] + ps, r3)),
                },
            },
        }
    }
}

/// Reads a whole record, requiring the buffer to be consumed exactly.
pub open spec fn dec_record(b: Seq<u8>) -> Option<RecordView> {
    if b.len() < 64 {
        None
    } else {
        match dec_bstr(b.skip(64)) {
            None => None,
            Some((name, r1)) => match dec_bstr(r1) {
                None => None,
                Some((symbol, r2)) => match dec_bstr(r2) {
                    None => None,
                    Some((uri, r3)) => match dec_u32(r3) {
                        None => None,
                        Some((count, r4)) => match dec_pairs(r4, count) {
                            None => None,
                            Some((ps, r5)) => if r5.len() == 0 {
                                Some(RecordView {
                                    update_authority: b.take(32),
                                    mint: b.subrange(32, 64),
                                    name: name,
                                    symbol: symbol,
                                    uri: uri,
                                    additional_fields: ps,
                                })
                            } else {
                                None
                            },
                        },
                    },
                },
            },
        }
    }
}

pub proof fn lemma_dec_u32_of_enc(n: nat, rest: Seq<u8>)
    requires
        n < 0x1_0000_0000,
    ensures
        dec_u32(u32_le(n) + rest) == Some((n, rest)),
{
    lemma_u32_le_roundtrip(n);
    let b = u32_le(n) + rest;
    assert(b.take(4) =~= u32_le(n));
    assert(b.skip(4) =~= rest);
}

pub proof fn lemma_dec_bstr_of_enc(s: Seq<u8>, rest: Seq<u8>)
    requires
        s.len() < 0x1_0000_0000,
    ensures
        dec_bstr(enc_bstr(s) + rest) == Some((s, rest)),
{
    lemma_u32_le_roundtrip(s.len());
    assert(enc_bstr(s) + rest =~= u32_le(s.len()) + (s + rest));
    lemma_dec_u32_of_enc(s.len(), s + rest);
    assert((s + rest).take(s.len() as int) =~= s);
    assert((s + rest).skip(s.len() as int) =~= rest);
}

pub proof fn lemma_dec_pairs_of_enc(ps: Seq<(Seq<u8>, Seq<u8>)>, rest: Seq<u8>)
    requires
        forall|i: int|
            0 <= i < ps.len() ==> (#[trigger] ps[i]).0.len() < 0x1_0000_0000 && ps[i].1.len()
                < 0x1_0000_0000,
    ensures
        dec_pairs(enc_pairs(ps) + rest, ps.len()) == Some((ps, rest)),
    decreases ps.len(),
{
    if ps.len() == 0 {
        assert(enc_pairs(ps) + rest =~= rest);
        assert(ps =~= Seq::<(Seq<u8>, Seq<u8>)>::empty());
    } else {
        let k = ps[0].0;
        let v = ps[0].1;
        let tail = ps.drop_first();
        assert(forall|i: int| 0 <= i < tail.len() ==> #[trigger] tail[i] == ps[i + 1]);
        assert(enc_pairs(ps) + rest =~= enc_bstr(k) + (enc_bstr(v) + (enc_pairs(tail) + rest)));
        lemma_dec_bstr_of_enc(k, enc_bstr(v) + (enc_pairs(tail) + rest));
        lemma_dec_bstr_of_enc(v, enc_pairs(tail) + rest);
        lemma_dec_pairs_of_enc(tail, rest);
        assert(seq![(k, v)] + tail =~= ps);
    }
}

/// Round-trip law: decoding an encoded record yields the record back.
#[verifier::rlimit(100)]
#[verifier::spinoff_prover]
pub proof fn lemma_record_roundtrip(v: RecordView)
    requires
        record_encodable(v),
    ensures
        dec_record(enc_record(v)) == Some(v),
{
    let b = enc_record(v);
    let count = v.additional_fields.len();
    lemma_u32_le_roundtrip(v.name.len());
    lemma_u32_le_roundtrip(v.symbol.len());
    lemma_u32_le_roundtrip(v.uri.len());
    lemma_u32_le_roundtrip(count);
    let rest3 = u32_le(count) + enc_pairs(v.additional_fields);
    let rest2 = enc_bstr(v.uri) + rest3;
    let rest1 = enc_bstr(v.symbol) + rest2;
    let tail0 = enc_bstr(v.name) + rest1;
    assert(b.len() >= 64);
    assert(b.take(32) =~= v.update_authority);
    assert(b.subrange(32, 64) =~= v.mint);
    assert(b.skip(64) =~= tail0);
    lemma_dec_bstr_of_enc(v.name, rest1);
    assert(dec_bstr(b.skip(64)) == Some((v.name, rest1)));
    assert(rest1 =~= enc_bstr(v.symbol) + rest2);
    lemma_dec_bstr_of_enc(v.symbol, rest2);
    assert(dec_bstr(rest1) == Some((v.symbol, rest2)));
    lemma_dec_bstr_of_enc(v.uri, rest3);
    assert(dec_bstr(rest2) == Some((v.uri, rest3)));
    lemma_dec_u32_of_enc(count, enc_pairs(v.additional_fields));
    assert(dec_u32(rest3) == Some((count, enc_pairs(v.additional_fields))));
    lemma_dec_pairs_of_enc(v.additional_fields, Seq::empty());
    assert(enc_pairs(v.additional_fields) + Seq::<u8>::empty() =~= enc_pairs(
        v.additional_fields,
    ));
    assert(dec_pairs(enc_pairs(v.additional_fields), count) == Some((
        v.additional_fields,
        Seq::<u8>::empty(),
    )));
    let rv = RecordView {
        update_authority: b.take(32),
        mint: b.subrange(32, 64),
        name: v.name,
        symbol: v.symbol,
        uri: v.uri,
        additional_fields: v.additional_fields,
    };
    assert(dec_record(b) == Some(rv));
    assert(rv =~= v);
}

/// Reads the four-byte length field at `i`; fails exactly when fewer than
/// four bytes remain.
fn read_len_at(b: &[u8], i: usize) -> (r: Result<(u32, usize), Error>)
    requires
        i <= b@.len(),
    ensures
        match r {
            Ok((n, j)) => dec_u32(b@.skip(i as int)) == Some((n as nat, b@.skip(j as int)))
                && j == i + 4,
            Err(e) => e == Error::MalformedContainer && dec_u32(b@.skip(i as int)) is None,
        },
{
    if b.len() - i < 4 {
        return Err(Error::MalformedContainer);
    }
    let n = read_u32_le(b[i], b[i + 1], b[i + 2], b[i + 3]);
    proof {
        assert(b@.skip(i as int).take(4) =~= seq![
            b@[i as int],
            b@[i as int + 1],
            b@[i as int + 2],
            b@[i as int + 3],
        ]);
        assert(b@.skip(i as int).skip(4) =~= b@.skip(i as int + 4));
    }
    Ok((n, i + 4))
}

/// Reads the length-prefixed byte string at `i`; fails exactly when the
/// length field is truncated or the declared length overruns the buffer.
fn read_bstr_at(b: &[u8], i: usize) -> (r: Result<(Vec<u8>, usize), Error>)
    requires
        i <= b@.len(),
    ensures
        match r {
            Ok((s, j)) => dec_bstr(b@.skip(i as int)) == Some((s@, b@.skip(j as int))) && i <= j
                <= b@.len() && s@.len() < 0x1_0000_0000,
            Err(e) => e == Error::MalformedContainer && dec_bstr(b@.skip(i as int)) is None,
        },
{
    let (n, j0) = match read_len_at(b, i) {
        Ok(x) => x,
        Err(e) => {
            return Err(e);
        },
    };
    let n_us = n as usize;
    if b.len() - j0 < n_us {
        return Err(Error::MalformedContainer);
    }
    let s = copy_range(b, j0, j0 + n_us);
    proof {
        assert(b@.skip(j0 as int).take(n as int) =~= b@.subrange(j0 as int, j0 + n_us as int));
        assert(b@.skip(j0 as int).skip(n as int) =~= b@.skip(j0 + n_us as int));
    }
    Ok((s, j0 + n_us))
}

impl TokenMetadata {
    /// Deserializes a record from its wire image, which must be consumed
    /// exactly; `MalformedContainer` exactly when `b` is not the image of
    /// any record.
    pub fn decode(b: &[u8]) -> (r: Result<TokenMetadata, Error>)
        ensures
            match r {
                Ok(m) => dec_record(b@) == Some(m@) && record_encodable(m@),
                Err(e) => e == Error::MalformedContainer && dec_record(b@) is None,
            },
    {
        if b.len() < 64 {
            return Err(Error::MalformedContainer);
        }
        let update_authority = copy_range(b, 0, 32);
        let mint = copy_range(b, 32, 64);
        let (name, i1) = match read_bstr_at(b, 64) {
            Ok(x) => x,
            Err(e) => {
                return Err(e);
            },
        };
        let (symbol, i2) = match read_bstr_at(b, i1) {
            Ok(x) => x,
            Err(e) => {
                return Err(e);
            },
        };
        let (uri, i3) = match read_bstr_at(b, i2) {
            Ok(x) => x,
            Err(e) => {
                return Err(e);
            },
        };
        let (count, i4) = match read_len_at(b, i3) {
            Ok(x) => x,
            Err(e) => {
                return Err(e);
            },
        };
        let mut pairs: Vec<(Vec<u8>, Vec<u8>)> = Vec::new();
        let mut i: usize = i4;
        let mut c: u32 = 0;
        proof {
            assert(pairs_view(pairs@) + Seq::<(Seq<u8>, Seq<u8>)>::empty()
                =~= pairs_view(pairs@));
        }
        while c < count
            invariant
                c <= count,
                i4 <= i <= b@.len(),
                pairs@.len() == c,
                forall|j: int|
                    0 <= j < pairs@.len() ==> (#[trigger] pairs@[j]).0@.len() < 0x1_0000_0000
                        && pairs@[j].1@.len() < 0x1_0000_0000,
                match dec_pairs(b@.skip(i as int), (count - c) as nat) {
                    Some((ps, r)) => dec_pairs(b@.skip(i4 as int), count as nat) == Some((
                        pairs_view(pairs@) + ps,
                        r,
                    )),
                    None => dec_pairs(b@.skip(i4 as int), count as nat) is None,
                },
                match dec_pairs(b@.skip(i4 as int), count as nat) {
                    Some((ps, r)) => dec_record(b@) == (if r.len() == 0 {
                        Some(RecordView {
                            update_authority: b@.take(32),
                            mint: b@.subrange(32, 64),
                            name: name@,
                            symbol: symbol@,
                            uri: uri@,
                            additional_fields: ps,
                        })
                    } else {
                        None
                    }),
                    None => dec_record(b@) is None,
                },
            decreases count - c,
        {
            let ghost prev = pairs_view(pairs@);
            let (k, j1) = match read_bstr_at(b, i) {
                Ok(x) => x,
                Err(e) => {
                    return Err(e);
                },
            };
            let (v, j2) = match read_bstr_at(b, j1) {
                Ok(x) => x,
                Err(e) => {
                    return Err(e);
                },
            };
            pairs.push((k, v));
            proof {
                assert(pairs_view(pairs@) =~= prev.push((k@, v@)));
                if let Some((ps, r)) = dec_pairs(b@.skip(j2 as int), (count - c - 1) as nat) {
                    assert(dec_pairs(b@.skip(i as int), (count - c) as nat) == Some((
                        seq![(k@, v@)] + ps,
                        r,
                    )));
                    assert(prev + (seq![(k@, v@)] + ps) =~= pairs_view(pairs@) + ps);
                } else {
                    assert(dec_pairs(b@.skip(i as int), (count - c) as nat) is None);
                }
            }
            i = j2;
            c += 1;
        }
        proof {
            assert(dec_pairs(b@.skip(i as int), 0) == Some((
                Seq::<(Seq<u8>, Seq<u8>)>::empty(),
                b@.skip(i as int),
            )));
            assert(pairs_view(pairs@) + Seq::<(Seq<u8>, Seq<u8>)>::empty()
                =~= pairs_view(pairs@));
        }
        if i != b.len() {
            return Err(Error::MalformedContainer);
        }
        let m = TokenMetadata { update_authority, mint, name, symbol, uri, additional_fields: pairs };
        proof {
            assert(b@.skip(i as int).len() == 0);
            assert(m@.update_authority =~= b@.take(32));
            assert(m@.mint =~= b@.subrange(32, 64));
            assert(dec_record(b@) == Some(m@));
        }
        Ok(m)
    }
}

/// A field selector: one of the three fixed fields, or an extension key.
#[derive(Debug)]
pub enum Field {
    Name,
    Symbol,
    Uri,
    Key(Vec<u8>),
}

/// The mathematical model of a field selector.
pub ghost enum FieldView {
    Name,
    Symbol,
    Uri,
    Key(Seq<u8>),
}

impl View for Field {
    type V = FieldView;

    open spec fn view(&self) -> FieldView {
        match self {
            Field::Name => FieldView::Name,
            Field::Symbol => FieldView::Symbol,
            Field::Uri => FieldView::Uri,
            Field::Key(k) => FieldView::Key(k@),
        }
    }
}

/// The value of the first pair whose key is `k`, if any.
pub open spec fn pairs_value(ps: Seq<(Seq<u8>, Seq<u8>)>, k: Seq<u8>) -> Option<Seq<u8>>
    decreases ps.len(),
{
    if ps.len() == 0 {
        None
    } else if ps[0].0 == k {
        Some(ps[0].1)
    } else {
        pairs_value(ps.drop_first(), k)
    }
}

/// Replaces the value of the first pair whose key is `k`, or appends
/// `(k, v)` when no pair has that key; all other pairs keep their place.
pub open spec fn upsert(ps: Seq<(Seq<u8>, Seq<u8>)>, k: Seq<u8>, v: Seq<u8>) -> Seq<
    (Seq<u8>, Seq<u8>),
>
    decreases ps.len(),
{
    if ps.len() == 0 {
        seq![(k, v)]
    } else if ps[0].0 == k {
        seq![(ps[0].0, v)] + ps.drop_first()
    } else {
        seq![ps[0]] + upsert(ps.drop_first(), k, v)
    }
}

/// The record after one field update.
pub open spec fn update_record(r: RecordView, f: FieldView, v: Seq<u8>) -> RecordView {
    match f {
        FieldView::Name => RecordView { name: v, ..r },
        FieldView::Symbol => RecordView { symbol: v, ..r },
        FieldView::Uri => RecordView { uri: v, ..r },
        FieldView::Key(k) => RecordView { additional_fields: upsert(r.additional_fields, k, v), ..r },
    }
}

/// The current value of a field, if it is present.
pub open spec fn field_value(r: RecordView, f: FieldView) -> Option<Seq<u8>> {
    match f {
        FieldView::Name => Some(r.name),
        FieldView::Symbol => Some(r.symbol),
        FieldView::Uri => Some(r.uri),
        FieldView::Key(k) => pairs_value(r.additional_fields, k),
    }
}

/// An update never touches the update authority or the mint.
pub proof fn lemma_update_keeps_authority(r: RecordView, f: FieldView, v: Seq<u8>)
    ensures
        update_record(r, f, v).update_authority == r.update_authority,
        update_record(r, f, v).mint == r.mint,
{
}

/// Key upsert, present case: when `i` is the first pair with key `k`, only
/// that pair's value changes; every other pair, and the order, is kept.
pub proof fn lemma_upsert_found(ps: Seq<(Seq<u8>, Seq<u8>)>, k: Seq<u8>, v: Seq<u8>, i: int)
    requires
        0 <= i < ps.len(),
        ps[i].0 == k,
        forall|j: int| 0 <= j < i ==> (#[trigger] ps[j]).0 != k,
    ensures
        upsert(ps, k, v) == ps.update(i, (ps[i].0, v)),
    decreases i,
{
    if i == 0 {
        assert(upsert(ps, k, v) =~= ps.update(0, (ps[0].0, v)));
    } else {
        let tail = ps.drop_first();
        assert(ps[0].0 != k);
        assert(forall|j: int| 0 <= j < tail.len() ==> #[trigger] tail[j] == ps[j + 1]);
        lemma_upsert_found(tail, k, v, i - 1);
        assert(upsert(ps, k, v) =~= ps.update(i, (ps[i].0, v)));
    }
}

/// Key upsert, absent case: `(k, v)` is appended and all prior pairs keep
/// their place and order.
pub proof fn lemma_upsert_absent(ps: Seq<(Seq<u8>, Seq<u8>)>, k: Seq<u8>, v: Seq<u8>)
    requires
        forall|j: int| 0 <= j < ps.len() ==> (#[trigger] ps[j]).0 != k,
    ensures
        upsert(ps, k, v) == ps.push((k, v)),
    decreases ps.len(),
{
    if ps.len() == 0 {
        assert(upsert(ps, k, v) =~= ps.push((k, v)));
    } else {
        let tail = ps.drop_first();
        assert(forall|j: int| 0 <= j < tail.len() ==> #[trigger] tail[j] == ps[j + 1]);
        lemma_upsert_absent(tail, k, v);
        assert(upsert(ps, k, v) =~= ps.push((k, v)));
    }
}

/// Idempotence: updating a field with its current value leaves the record
/// unchanged.
pub proof fn lemma_update_noop(r: RecordView, f: FieldView, v: Seq<u8>)
    requires
        field_value(r, f) == Some(v),
    ensures
        update_record(r, f, v) == r,
{
    match f {
        FieldView::Name => {
            assert(update_record(r, f, v) =~= r);
        },
        FieldView::Symbol => {
            assert(update_record(r, f, v) =~= r);
        },
        FieldView::Uri => {
            assert(update_record(r, f, v) =~= r);
        },
        FieldView::Key(k) => {
            lemma_upsert_noop(r.additional_fields, k, v);
            assert(update_record(r, f, v) =~= r);
        },
    }
}

proof fn lemma_upsert_noop(ps: Seq<(Seq<u8>, Seq<u8>)>, k: Seq<u8>, v: Seq<u8>)
    requires
        pairs_value(ps, k) == Some(v),
    ensures
        upsert(ps, k, v) == ps,
    decreases ps.len(),
{
    if ps.len() == 0 {
    } else if ps[0].0 == k {
        assert(upsert(ps, k, v) =~= ps);
    } else {
        lemma_upsert_noop(ps.drop_first(), k, v);
        assert(upsert(ps, k, v) =~= ps);
    }
}

impl TokenMetadata {
    /// Applies one field update: a fixed field is replaced unconditionally;
    /// an extension key replaces the value of its first occurrence, or is
    /// appended when absent, keeping the order of all other pairs.
    pub fn update(&mut self, field: Field, value: Vec<u8>)
        ensures
            final(self)@ == update_record(old(self)@, field@, value@),
    {
        match field {
            Field::Name => {
                self.name = value;
                proof {
                    assert(self@ =~= update_record(old(self)@, FieldView::Name, self.name@));
                }
            },
            Field::Symbol => {
                self.symbol = value;
                proof {
                    assert(self@ =~= update_record(old(self)@, FieldView::Symbol, self.symbol@));
                }
            },
            Field::Uri => {
                self.uri = value;
                proof {
                    assert(self@ =~= update_record(old(self)@, FieldView::Uri, self.uri@));
                }
            },
            Field::Key(k) => {
                let n = self.additional_fields.len();
                let mut i: usize = 0;
                let mut found: usize = n;
                while i < n
                    invariant
                        0 <= i <= n,
                        n == self.additional_fields.len(),
                        *self == *old(self),
                        found == n || (found < i && self@.additional_fields[found as int].0
                            == k@),
                        found == n ==> forall|j: int|
                            0 <= j < i ==> (#[trigger] self@.additional_fields[j]).0 != k@,
                        found < n ==> forall|j: int|
                            0 <= j < found ==> (#[trigger] self@.additional_fields[j]).0 != k@,
                    decreases n - i,
                {
                    proof {
                        assert(self@.additional_fields[i as int] == (
                            self.additional_fields@[i as int].0@,
                            self.additional_fields@[i as int].1@,
                        ));
                    }
                    if found == n && bytes_equal(&self.additional_fields[i].0, &k) {
                        found = i;
                    }
                    i += 1;
                }
                if found < n {
                    let ghost ps = self@.additional_fields;
                    self.additional_fields[found] = (k, value);
                    proof {
                        lemma_upsert_found(ps, ps[found as int].0, value@, found as int);
                        assert(pairs_view(self.additional_fields@) =~= ps.update(
                            found as int,
                            (ps[found as int].0, value@),
                        ));
                        assert(self@ =~= update_record(old(self)@, field@, value@));
                    }
                } else {
                    let ghost ps = self@.additional_fields;
                    self.additional_fields.push((k, value));
                    proof {
                        lemma_upsert_absent(ps, k@, value@);
                        assert(pairs_view(self.additional_fields@) =~= ps.push((k@, value@)));
                        assert(self@ =~= update_record(old(self)@, field@, value@));
                    }
                }
            },
        }
    }
}

/// Whether a 32-byte key is the unset sentinel.
pub fn key_is_unset(k: &Vec<u8>) -> (r: bool)
    requires
        k@.len() == 32,
    ensures
        r == (k@ == zero_key()),
{
    let mut i: usize = 0;
    while i < 32
        invariant
            i <= 32,
            k@.len() == 32,
            forall|j: int| 0 <= j < i ==> k@[j] == 0u8,
        decreases 32 - i,
    {
        if k[i] != 0u8 {
            proof {
                assert(k@[i as int] != zero_key()[i as int]);
            }
            return false;
        }
        i += 1;
    }
    proof {
        assert(k@ =~= zero_key());
    }
    true
}

/// The record's image fits a container entry: every part fits its length
/// field, the image fits the entry's length field, and a container of the
/// record alone fits in addressable memory.
pub open spec fn record_fits(v: RecordView) -> bool {
    &&& record_encodable(v)
    &&& enc_record(v).len() < 0x1_0000_0000
    &&& enc_record(v).len() + 14 <= usize::MAX
}

impl TokenMetadata {
    /// The total container size needed to store this record alone: the
    /// container header, one entry header, and the record image.
    pub fn tlv_size_of(&self) -> (r: Result<usize, Error>)
        requires
            record_wf(self@),
        ensures
            match r {
                Ok(s) => record_fits(self@) && s == 14 + enc_record(self@).len(),
                Err(e) => e == Error::EncodingError && !record_fits(self@),
            },
    {
        let encoded = match self.encode() {
            Ok(b) => b,
            Err(e) => {
                return Err(e);
            },
        };
        if encoded.len() as u64 >= 0x1_0000_0000u64 {
            return Err(Error::EncodingError);
        }
        if encoded.len() > usize::MAX - 14 {
            return Err(Error::EncodingError);
        }
        Ok(14 + encoded.len())
    }
}

proof fn lemma_bstr_canonical(b: Seq<u8>, v: Seq<u8>, r: Seq<u8>)
    requires
        dec_bstr(b) == Some((v, r)),
    ensures
        v.len() < 0x1_0000_0000,
        enc_bstr(v) + r == b,
{
    lemma_u32_le_canonical(b.take(4));
    assert(u32_le(v.len()) == b.take(4));
    assert(enc_bstr(v) + r =~= b);
}

#[verifier::rlimit(100)]
#[verifier::spinoff_prover]
proof fn lemma_pairs_wf(b: Seq<u8>, count: nat, ps: Seq<(Seq<u8>, Seq<u8>)>, r: Seq<u8>)
    requires
        dec_pairs(b, count) == Some((ps, r)),
    ensures
        ps.len() == count,
        forall|i: int|
            0 <= i < ps.len() ==> (#[trigger] ps[i]).0.len() < 0x1_0000_0000 && ps[i].1.len()
                < 0x1_0000_0000,
    decreases count,
{
    if count == 0 {
    } else {
        let (k, r1) = dec_bstr(b).unwrap();
        let (v, r2) = dec_bstr(r1).unwrap();
        let (tail, r3) = dec_pairs(r2, (count - 1) as nat).unwrap();
        lemma_pairs_wf(r2, (count - 1) as nat, tail, r3);
        assert(ps == seq![(k, v)] + tail);
        assert forall|i: int| 0 <= i < ps.len() implies (#[trigger] ps[i]).0.len()
            < 0x1_0000_0000 && ps[i].1.len() < 0x1_0000_0000 by {
            if i > 0 {
                assert(ps[i] == tail[i - 1]);
            } else {
                assert(ps[0] == (k, v));
            }
        }
    }
}

#[verifier::rlimit(100)]
#[verifier::spinoff_prover]
proof fn lemma_pairs_canonical(b: Seq<u8>, count: nat, ps: Seq<(Seq<u8>, Seq<u8>)>, r: Seq<u8>)
    requires
        dec_pairs(b, count) == Some((ps, r)),
    ensures
        enc_pairs(ps) + r == b,
    decreases count,
{
    if count == 0 {
        assert(enc_pairs(ps) + r =~= b);
    } else {
        let (k, r1) = dec_bstr(b).unwrap();
        let (v, r2) = dec_bstr(r1).unwrap();
        let (tail, r3) = dec_pairs(r2, (count - 1) as nat).unwrap();
        lemma_bstr_canonical(b, k, r1);
        lemma_bstr_canonical(r1, v, r2);
        lemma_pairs_canonical(r2, (count - 1) as nat, tail, r3);
        assert(ps == seq![(k, v)] + tail);
        assert(r == r3);
        assert(ps[0] == (k, v));
        assert(ps.drop_first() =~= tail);
        assert(enc_pairs(ps) == (enc_bstr(k) + enc_bstr(v)) + enc_pairs(tail));
        vstd::seq_lib::lemma_concat_associative(enc_bstr(k) + enc_bstr(v), enc_pairs(tail), r);
        assert(enc_pairs(ps) + r == (enc_bstr(k) + enc_bstr(v)) + (enc_pairs(tail) + r3));
        vstd::seq_lib::lemma_concat_associative(enc_bstr(k), enc_bstr(v), r2);
        assert((enc_bstr(k) + enc_bstr(v)) + r2 == enc_bstr(k) + (enc_bstr(v) + r2));
        assert(enc_pairs(ps) + r == b);
    }
}

#[verifier::spinoff_prover]
proof fn lemma_record_assemble(
    b: Seq<u8>,
    v: RecordView,
    r1: Seq<u8>,
    r2: Seq<u8>,
    r3: Seq<u8>,
    r4: Seq<u8>,
)
    requires
        b.len() >= 64,
        v.update_authority == b.take(32),
        v.mint == b.subrange(32, 64),
        enc_bstr(v.name) + r1 == b.skip(64),
        enc_bstr(v.symbol) + r2 == r1,
        enc_bstr(v.uri) + r3 == r2,
        r3.len() >= 4,
        u32_le(v.additional_fields.len()) == r3.take(4),
        r4 == r3.skip(4),
        enc_pairs(v.additional_fields) == r4,
    ensures
        enc_record(v) == b,
{
    let t0 = b.skip(64);
    let s0 = v.update_authority + v.mint;
    let pa = enc_bstr(v.name);
    let pb = enc_bstr(v.symbol);
    let pc = enc_bstr(v.uri);
    let pd = u32_le(v.additional_fields.len());
    let pe = enc_pairs(v.additional_fields);
    assert(pd + r4 =~= r3);
    assert(enc_record(v) == ((((s0 + pa) + pb) + pc) + pd) + pe);
    vstd::seq_lib::lemma_concat_associative((((s0 + pa) + pb) + pc), pd, pe);
    assert(((((s0 + pa) + pb) + pc) + pd) + pe == (((s0 + pa) + pb) + pc) + r3);
    vstd::seq_lib::lemma_concat_associative(((s0 + pa) + pb), pc, r3);
    assert((((s0 + pa) + pb) + pc) + r3 == ((s0 + pa) + pb) + r2);
    vstd::seq_lib::lemma_concat_associative((s0 + pa), pb, r2);
    assert(((s0 + pa) + pb) + r2 == (s0 + pa) + r1);
    vstd::seq_lib::lemma_concat_associative(s0, pa, r1);
    assert((s0 + pa) + r1 == s0 + t0);
    assert(b.take(64) =~= s0);
    assert(b =~= b.take(64) + t0);
}

/// Canonicity law: every buffer that decodes is the encoding of the record
/// it decodes to — the format admits exactly one image per record.
#[verifier::rlimit(100)]
#[verifier::spinoff_prover]
pub proof fn lemma_record_canonical(b: Seq<u8>, v: RecordView)
    requires
        dec_record(b) == Some(v),
    ensures
        record_encodable(v),
        enc_record(v) == b,
{
    let t0 = b.skip(64);
    let (name, r1) = dec_bstr(t0).unwrap();
    let (symbol, r2) = dec_bstr(r1).unwrap();
    let (uri, r3) = dec_bstr(r2).unwrap();
    let (count, r4) = dec_u32(r3).unwrap();
    let (ps, r5) = dec_pairs(r4, count).unwrap();
    lemma_bstr_canonical(t0, name, r1);
    lemma_bstr_canonical(r1, symbol, r2);
    lemma_bstr_canonical(r2, uri, r3);
    lemma_u32_le_canonical(r3.take(4));
    lemma_pairs_wf(r4, count, ps, r5);
    lemma_pairs_canonical(r4, count, ps, r5);
    assert(v.update_authority == b.take(32));
    assert(v.mint == b.subrange(32, 64));
    assert(v.name == name && v.symbol == symbol && v.uri == uri && v.additional_fields == ps);
    assert(r5.len() == 0);
    assert(enc_pairs(ps) + r5 =~= enc_pairs(ps));
    assert(enc_pairs(ps) == r4);
    lemma_record_assemble(b, v, r1, r2, r3, r4);
}

} // verus!
