//! The TLV container: a fixed header followed by `(type_tag, length,
//! payload)` entries, each tag two bytes and each length four bytes, both
//! little-endian. Unknown tags are carried and skipped, never interpreted.

use crate::bytes::{
    copy_range, le_u16, le_u32, lemma_u16_le_canonical, lemma_u16_le_roundtrip,
    lemma_u32_le_canonical, lemma_u32_le_roundtrip, read_u16_le, read_u32_le, u16_le, u32_le,
    write_u16_le, write_u32_le,
};
use crate::record::{enc_record, record_encodable, TokenMetadata};
use crate::Error;
use vstd::prelude::*;

verus! {

/// Number of bytes in the container header.
pub const HEADER_LEN: usize = 8;

/// The header image: a format version byte followed by reserved zero bytes.
pub open spec fn header_bytes() -> Seq<u8> {
    seq![1u8, 0u8, 0u8, 0u8, 0u8, 0u8, 0u8, 0u8]
}

/// The entry type tag under which the metadata record is stored.
pub const METADATA_TAG: u16 = 1;

/// An all-zero payload of the given length.
pub open spec fn zeros(n: nat) -> Seq<u8> {
    Seq::new(n, |i: int| 0u8)
}

/// Parses the entry region: entries repeated exactly to the end.
pub open spec fn dec_entries(b: Seq<u8>) -> Option<Seq<(u16, Seq<u8>)>>
    decreases b.len(),
{
    if b.len() == 0 {
        Some(Seq::empty())
    } else if b.len() < 6 {
        None
    } else {
        let tag = le_u16(b.take(2)) as u16;
        let n = le_u32(b.subrange(2, 6));
        if n <= b.len() - 6 {
            match dec_entries(b.skip(6 + n as int)) {
                None => None,
                Some(es) => Some(seq![(tag, b.subrange(6, 6 + n as int))] + es),
            }
        } else {
            None
        }
    }
}

/// Serializes the entry list.
pub open spec fn ser_entries(es: Seq<(u16, Seq<u8>)>) -> Seq<u8>
    decreases es.len(),
{
    if es.len() == 0 {
        Seq::empty()
    } else {
        u16_le(es[0].0 as nat) + u32_le(es[0].1.len()) + es[0].1 + ser_entries(es.drop_first())
    }
}

/// Every payload fits its 32-bit length field.
pub open spec fn entries_encodable(es: Seq<(u16, Seq<u8>)>) -> bool {
    forall|i: int| 0 <= i < es.len() ==> (#[trigger] es[i]).1.len() < 0x1_0000_0000
}

/// The whole container image: header, then entries.
pub open spec fn container_bytes(es: Seq<(u16, Seq<u8>)>) -> Seq<u8> {
    header_bytes() + ser_entries(es)
}

/// A buffer is a well-formed container when it holds the header and its
/// entry region parses exactly to the end.
pub open spec fn container_wf(b: Seq<u8>) -> bool {
    b.len() >= 8 && dec_entries(b.skip(8)) is Some
}

/// The entries of a well-formed container buffer.
pub open spec fn entries_of(b: Seq<u8>) -> Seq<(u16, Seq<u8>)>
    recommends
        container_wf(b),
{
    dec_entries(b.skip(8)).unwrap()
}

/// The payload of the first entry with the given tag, if any.
pub open spec fn first_payload(es: Seq<(u16, Seq<u8>)>, tag: u16) -> Option<Seq<u8>>
    decreases es.len(),
{
    if es.len() == 0 {
        None
    } else if es[0].0 == tag {
        Some(es[0].1)
    } else {
        first_payload(es.drop_first(), tag)
    }
}

/// The entry list with the payload of the first `tag` entry replaced;
/// unchanged when no entry has that tag.
pub open spec fn replace_first(es: Seq<(u16, Seq<u8>)>, tag: u16, p: Seq<u8>) -> Seq<
    (u16, Seq<u8>),
>
    decreases es.len(),
{
    if es.len() == 0 {
        es
    } else if es[0].0 == tag {
        seq![(es[0].0, p)] + es.drop_first()
    } else {
        seq![es[0]] + replace_first(es.drop_first(), tag, p)
    }
}

pub proof fn lemma_ser_entries_push(es: Seq<(u16, Seq<u8>)>, e: (u16, Seq<u8>))
    ensures
        ser_entries(es.push(e)) == ser_entries(es) + u16_le(e.0 as nat) + u32_le(e.1.len())
            + e.1,
    decreases es.len(),
{
    let q = es.push(e);
    if es.len() == 0 {
        assert(q[0] == e);
        assert(q.drop_first() =~= Seq::<(u16, Seq<u8>)>::empty());
        assert(ser_entries(q.drop_first()) == Seq::<u8>::empty());
        assert(ser_entries(q) =~= ser_entries(es) + u16_le(e.0 as nat) + u32_le(e.1.len())
            + e.1);
    } else {
        lemma_ser_entries_push(es.drop_first(), e);
        assert(q[0] == es[0]);
        assert(q.drop_first() =~= es.drop_first().push(e));
        assert(ser_entries(q) =~= ser_entries(es) + u16_le(e.0 as nat) + u32_le(e.1.len())
            + e.1);
    }
}

/// Round-trip law: parsing a serialized entry list yields it back.
#[verifier::rlimit(100)]
#[verifier::spinoff_prover]
pub proof fn lemma_entries_roundtrip(es: Seq<(u16, Seq<u8>)>)
    requires
        entries_encodable(es),
    ensures
        dec_entries(ser_entries(es)) == Some(es),
    decreases es.len(),
{
    if es.len() == 0 {
        assert(ser_entries(es).len() == 0);
        assert(es =~= Seq::<(u16, Seq<u8>)>::empty());
    } else {
        let tag = es[0].0;
        let p = es[0].1;
        let tail = es.drop_first();
        assert(forall|i: int| 0 <= i < tail.len() ==> #[trigger] tail[i] == es[i + 1]);
        lemma_entries_roundtrip(tail);
        lemma_u16_le_roundtrip(tag as nat);
        lemma_u32_le_roundtrip(p.len());
        let b = ser_entries(es);
        assert(b =~= (u16_le(tag as nat) + u32_le(p.len())) + (p + ser_entries(tail)));
        assert(b.len() == 6 + p.len() + ser_entries(tail).len());
        assert(b.take(2) =~= u16_le(tag as nat));
        assert(b.subrange(2, 6) =~= u32_le(p.len()));
        assert(b.subrange(6, 6 + p.len() as int) =~= p);
        assert(b.skip(6 + p.len() as int) =~= ser_entries(tail));
        assert(seq![(tag, p)] + tail =~= es);
    }
}

/// When `i` is the first entry with `tag`, `first_payload` is its payload.
pub proof fn lemma_first_payload_found(es: Seq<(u16, Seq<u8>)>, tag: u16, i: int)
    requires
        0 <= i < es.len(),
        es[i].0 == tag,
        forall|j: int| 0 <= j < i ==> (#[trigger] es[j]).0 != tag,
    ensures
        first_payload(es, tag) == Some(es[i].1),
    decreases i,
{
    if i == 0 {
    } else {
        let tail = es.drop_first();
        assert(es[0].0 != tag);
        assert(forall|j: int| 0 <= j < tail.len() ==> #[trigger] tail[j] == es[j + 1]);
        lemma_first_payload_found(tail, tag, i - 1);
    }
}

/// When no entry has `tag`, `first_payload` is `None`.
pub proof fn lemma_first_payload_absent(es: Seq<(u16, Seq<u8>)>, tag: u16)
    requires
        forall|j: int| 0 <= j < es.len() ==> (#[trigger] es[j]).0 != tag,
    ensures
        first_payload(es, tag) is None,
    decreases es.len(),
{
    if es.len() == 0 {
    } else {
        let tail = es.drop_first();
        assert(forall|j: int| 0 <= j < tail.len() ==> #[trigger] tail[j] == es[j + 1]);
        lemma_first_payload_absent(tail, tag);
    }
}

/// When `i` is the first entry with `tag`, replacing is a point update.
pub proof fn lemma_replace_first_found(es: Seq<(u16, Seq<u8>)>, tag: u16, p: Seq<u8>, i: int)
    requires
        0 <= i < es.len(),
        es[i].0 == tag,
        forall|j: int| 0 <= j < i ==> (#[trigger] es[j]).0 != tag,
    ensures
        replace_first(es, tag, p) == es.update(i, (es[i].0, p)),
    decreases i,
{
    if i == 0 {
        assert(replace_first(es, tag, p) =~= es.update(0, (es[0].0, p)));
    } else {
        let tail = es.drop_first();
        assert(es[0].0 != tag);
        assert(forall|j: int| 0 <= j < tail.len() ==> #[trigger] tail[j] == es[j + 1]);
        lemma_replace_first_found(tail, tag, p, i - 1);
        assert(replace_first(es, tag, p) =~= es.update(i, (es[i].0, p)));
    }
}

/// A decoded container: its parsed entry list.
#[derive(Debug)]
pub struct TlvContainer {
    pub entries: Vec<(u16, Vec<u8>)>,
}

/// The model of a decoded entry list.
pub open spec fn entries_view(v: Seq<(u16, Vec<u8>)>) -> Seq<(u16, Seq<u8>)> {
    Seq::new(v.len(), |i: int| (v[i].0, v[i].1@))
}

impl View for TlvContainer {
    type V = Seq<(u16, Seq<u8>)>;

    open spec fn view(&self) -> Seq<(u16, Seq<u8>)> {
        entries_view(self.entries@)
    }
}

/// Validates and parses a container buffer into its entry list; fails with
/// `MalformedContainer` exactly when the buffer is shorter than the header,
/// an entry header is truncated, or a declared length overruns the buffer.
pub fn unpack(buffer: &[u8]) -> (r: Result<TlvContainer, Error>)
    ensures
        match r {
            Ok(c) => container_wf(buffer@) && c@ == entries_of(buffer@) && entries_encodable(
                c@,
            ),
            Err(e) => e == Error::MalformedContainer && !container_wf(buffer@),
        },
{
    if buffer.len() < HEADER_LEN {
        return Err(Error::MalformedContainer);
    }
    let mut entries: Vec<(u16, Vec<u8>)> = Vec::new();
    let mut i: usize = 8;
    proof {
        assert(entries_view(entries@) + Seq::<(u16, Seq<u8>)>::empty() =~= entries_view(
            entries@,
        ));
    }
    while i < buffer.len()
        invariant
            8 <= i <= buffer@.len(),
            forall|j: int|
                0 <= j < entries@.len() ==> (#[trigger] entries@[j]).1@.len() < 0x1_0000_0000,
            match dec_entries(buffer@.skip(i as int)) {
                Some(es) => dec_entries(buffer@.skip(8)) == Some(entries_view(entries@) + es),
                None => dec_entries(buffer@.skip(8)) is None,
            },
        decreases buffer@.len() - i,
    {
        let ghost prev = entries_view(entries@);
        if buffer.len() - i < 6 {
            return Err(Error::MalformedContainer);
        }
        let tag = read_u16_le(buffer[i], buffer[i + 1]);
        let n = read_u32_le(buffer[i + 2], buffer[i + 3], buffer[i + 4], buffer[i + 5]);
        proof {
            assert(buffer@.skip(i as int).take(2) =~= seq![
                buffer@[i as int],
                buffer@[i as int + 1],
            ]);
            assert(buffer@.skip(i as int).subrange(2, 6) =~= seq![
                buffer@[i as int + 2],
                buffer@[i as int + 3],
                buffer@[i as int + 4],
                buffer@[i as int + 5],
            ]);
        }
        let n_us = n as usize;
        if n_us > buffer.len() - (i + 6) {
            return Err(Error::MalformedContainer);
        }
        let payload = copy_range(buffer, i + 6, i + 6 + n_us);
        proof {
            assert(buffer@.skip(i as int).subrange(6, 6 + n as int) =~= buffer@.subrange(
                i + 6,
                i + 6 + n_us as int,
            ));
            assert(buffer@.skip(i as int).skip(6 + n as int) =~= buffer@.skip(
                i + 6 + n_us as int,
            ));
        }
        entries.push((tag, payload));
        proof {
            assert(entries_view(entries@) =~= prev.push((tag, payload@)));
            if let Some(es) = dec_entries(buffer@.skip(i + 6 + n_us as int)) {
                assert(dec_entries(buffer@.skip(i as int)) == Some(
                    seq![(tag, payload@)] + es,
                ));
                assert(prev + (seq![(tag, payload@)] + es) =~= entries_view(entries@) + es);
            }
        }
        i = i + 6 + n_us;
    }
    proof {
        assert(buffer@.skip(i as int).len() == 0);
        assert(dec_entries(buffer@.skip(i as int)) == Some(Seq::<(u16, Seq<u8>)>::empty()));
        assert(entries_view(entries@) + Seq::<(u16, Seq<u8>)>::empty() =~= entries_view(
            entries@,
        ));
    }
    Ok(TlvContainer { entries })
}

/// Serializes the container: the header, then every entry in order; fails
/// with `EncodingError` exactly when some payload does not fit its length
/// field.
pub fn pack(c: &TlvContainer) -> (r: Result<Vec<u8>, Error>)
    ensures
        match r {
            Ok(b) => entries_encodable(c@) && b@ == container_bytes(c@),
            Err(e) => e == Error::EncodingError && !entries_encodable(c@),
        },
{
    let mut out: Vec<u8> = Vec::new();
    out.push(1u8);
    let mut z: usize = 0;
    while z < 7
        invariant
            z <= 7,
            out@ == header_bytes().take(1 + z as int),
        decreases 7 - z,
    {
        out.push(0u8);
        z += 1;
        proof {
            assert(out@ =~= header_bytes().take(1 + z as int));
        }
    }
    proof {
        assert(out@ =~= header_bytes());
    }
    let ghost base = out@;
    let mut i: usize = 0;
    while i < c.entries.len()
        invariant
            i <= c.entries.len(),
            base == header_bytes(),
            out@ == base + ser_entries(c@.take(i as int)),
            forall|j: int| 0 <= j < i ==> (#[trigger] c@[j]).1.len() < 0x1_0000_0000,
        decreases c.entries.len() - i,
    {
        let ghost taken = c@.take(i as int);
        proof {
            assert(c@[i as int] == (c.entries@[i as int].0, c.entries@[i as int].1@));
        }
        if c.entries[i].1.len() as u64 >= 0x1_0000_0000u64 {
            return Err(Error::EncodingError);
        }
        write_u16_le(c.entries[i].0, &mut out);
        write_u32_le(c.entries[i].1.len() as u32, &mut out);
        out.extend_from_slice(c.entries[i].1.as_slice());
        proof {
            lemma_ser_entries_push(taken, c@[i as int]);
            assert(c@.take(i + 1) =~= taken.push(c@[i as int]));
            assert(out@ =~= base + ser_entries(c@.take(i + 1)));
        }
        i += 1;
    }
    proof {
        assert(c@.take(c.entries.len() as int) =~= c@);
        assert(out@ =~= container_bytes(c@));
    }
    Ok(out)
}

/// The index of the first entry with `tag`, or the length when none has it.
fn find_index(c: &TlvContainer, tag: u16) -> (r: usize)
    ensures
        r <= c.entries@.len(),
        r < c.entries@.len() ==> c@[r as int].0 == tag && (forall|j: int|
            0 <= j < r ==> (#[trigger] c@[j]).0 != tag),
        r == c.entries@.len() ==> forall|j: int|
            0 <= j < c@.len() ==> (#[trigger] c@[j]).0 != tag,
{
    let n = c.entries.len();
    let mut i: usize = 0;
    let mut found: usize = n;
    while i < n
        invariant
            0 <= i <= n,
            n == c.entries@.len(),
            found == n || (found < i && c@[found as int].0 == tag),
            found == n ==> forall|j: int| 0 <= j < i ==> (#[trigger] c@[j]).0 != tag,
            found < n ==> forall|j: int| 0 <= j < found ==> (#[trigger] c@[j]).0 != tag,
        decreases n - i,
    {
        proof {
            assert(c@[i as int] == (c.entries@[i as int].0, c.entries@[i as int].1@));
        }
        if found == n && c.entries[i].0 == tag {
            found = i;
        }
        i += 1;
    }
    found
}

/// The payload of the first entry with `tag`; fails with `NotFound`
/// exactly when no entry has that tag.
pub fn find_entry(c: &TlvContainer, tag: u16) -> (r: Result<&Vec<u8>, Error>)
    ensures
        match r {
            Ok(p) => first_payload(c@, tag) == Some(p@),
            Err(e) => e == Error::NotFound && first_payload(c@, tag) is None,
        },
{
    let idx = find_index(c, tag);
    if idx < c.entries.len() {
        proof {
            lemma_first_payload_found(c@, tag, idx as int);
            assert(c@[idx as int] == (c.entries@[idx as int].0, c.entries@[idx as int].1@));
        }
        Ok(&c.entries[idx].1)
    } else {
        proof {
            lemma_first_payload_absent(c@, tag);
        }
        Err(Error::NotFound)
    }
}

/// A zero-filled byte string of the given length.
fn zero_vec(n: usize) -> (r: Vec<u8>)
    ensures
        r@ == zeros(n as nat),
{
    let mut r: Vec<u8> = Vec::new();
    let mut i: usize = 0;
    while i < n
        invariant
            i <= n,
            r@.len() == i,
            forall|j: int| 0 <= j < i ==> r@[j] == 0u8,
        decreases n - i,
    {
        r.push(0u8);
        i += 1;
    }
    proof {
        assert(r@ =~= zeros(n as nat));
    }
    r
}

/// Copies an entry list.
fn copy_entries(src: &Vec<(u16, Vec<u8>)>) -> (r: Vec<(u16, Vec<u8>)>)
    ensures
        entries_view(r@) == entries_view(src@),
{
    let mut r: Vec<(u16, Vec<u8>)> = Vec::new();
    let mut i: usize = 0;
    while i < src.len()
        invariant
            i <= src@.len(),
            entries_view(r@) == entries_view(src@.take(i as int)),
        decreases src@.len() - i,
    {
        let ghost prev = entries_view(r@);
        let tag = src[i].0;
        let payload = crate::bytes::clone_bytes(&src[i].1);
        r.push((tag, payload));
        i += 1;
        proof {
            assert(entries_view(r@) =~= prev.push((tag, payload@)));
            assert(entries_view(src@.take(i as int)) =~= prev.push((tag, payload@)));
        }
    }
    proof {
        assert(src@.take(src@.len() as int) =~= src@);
    }
    r
}

/// Makes room for an entry of `tag` holding a zero-filled payload of
/// `payload_len` bytes, inside a backing allocation of `capacity` bytes.
///
/// Fails with `DuplicateEntry` when an entry of that tag exists and
/// `overwrite` is false, with `EncodingError` when a payload would not fit
/// its length field, and with `OutOfSpace` when the new container image
/// would not fit the allocation. The container is unchanged on failure.
pub fn allocate_entry(
    c: &mut TlvContainer,
    tag: u16,
    payload_len: usize,
    overwrite: bool,
    capacity: usize,
) -> (r: Result<(), Error>)
    ensures
        ({
            let present = first_payload(old(c)@, tag) is Some;
            let candidate = (if present {
                replace_first(old(c)@, tag, zeros(payload_len as nat))
            } else {
                old(c)@.push((tag, zeros(payload_len as nat)))
            });
            match r {
                Ok(()) => {
                    &&& !(present && !overwrite)
                    &&& payload_len < 0x1_0000_0000
                    &&& entries_encodable(candidate)
                    &&& container_bytes(candidate).len() <= capacity
                    &&& final(c)@ == candidate
                },
                Err(e) => {
                    &&& final(c)@ == old(c)@
                    &&& (e == Error::EncodingError || e == Error::DuplicateEntry || e
                        == Error::OutOfSpace)
                    &&& (e == Error::EncodingError <==> payload_len >= 0x1_0000_0000 || (!(
                        present && !overwrite) && !entries_encodable(candidate)))
                    &&& (e == Error::DuplicateEntry <==> payload_len < 0x1_0000_0000 && present
                        && !overwrite)
                    &&& (e == Error::OutOfSpace <==> payload_len < 0x1_0000_0000 && !(present
                        && !overwrite) && entries_encodable(candidate) && container_bytes(
                        candidate,
                    ).len() > capacity)
                },
            }
        }),
{
    if payload_len as u64 >= 0x1_0000_0000u64 {
        return Err(Error::EncodingError);
    }
    let idx = find_index(c, tag);
    let n = c.entries.len();
    proof {
        if idx < n {
            lemma_first_payload_found(c@, tag, idx as int);
        } else {
            lemma_first_payload_absent(c@, tag);
        }
    }
    if idx < n && !overwrite {
        return Err(Error::DuplicateEntry);
    }
    let mut candidate = TlvContainer { entries: copy_entries(&c.entries) };
    let z = zero_vec(payload_len);
    if idx < n {
        candidate.entries[idx] = (tag, z);
        proof {
            lemma_replace_first_found(c@, tag, zeros(payload_len as nat), idx as int);
            assert(candidate@ =~= replace_first(c@, tag, zeros(payload_len as nat)));
        }
    } else {
        candidate.entries.push((tag, z));
        proof {
            assert(candidate@ =~= c@.push((tag, zeros(payload_len as nat))));
        }
    }
    let packed = match pack(&candidate) {
        Ok(b) => b,
        Err(e) => {
            return Err(e);
        },
    };
    if packed.len() > capacity {
        return Err(Error::OutOfSpace);
    }
    c.entries = candidate.entries;
    Ok(())
}

/// Serializes `value` and writes its image as the payload of the first
/// entry tagged `METADATA_TAG`. The container is unchanged on failure.
pub fn pack_first_variable_len_value(c: &mut TlvContainer, value: &TokenMetadata) -> (r: Result<
    (),
    Error,
>)
    requires
        crate::record::record_wf(value@),
    ensures
        match r {
            Ok(()) => {
                &&& record_encodable(value@)
                &&& first_payload(old(c)@, METADATA_TAG) is Some
                &&& final(c)@ == replace_first(old(c)@, METADATA_TAG, enc_record(value@))
                &&& (entries_encodable(old(c)@) && enc_record(value@).len() < 0x1_0000_0000)
                    ==> entries_encodable(final(c)@)
                &&& entries_encodable(final(c)@) ==> enc_record(value@).len() < 0x1_0000_0000
            },
            Err(e) => {
                &&& final(c)@ == old(c)@
                &&& (e == Error::EncodingError || e == Error::NotFound)
                &&& (e == Error::EncodingError <==> !record_encodable(value@))
                &&& (e == Error::NotFound <==> record_encodable(value@) && first_payload(
                    old(c)@,
                    METADATA_TAG,
                ) is None)
            },
        },
{
    let encoded = match value.encode() {
        Ok(b) => b,
        Err(e) => {
            return Err(e);
        },
    };
    let idx = find_index(c, METADATA_TAG);
    let n = c.entries.len();
    if idx >= n {
        proof {
            lemma_first_payload_absent(c@, METADATA_TAG);
        }
        return Err(Error::NotFound);
    }
    proof {
        lemma_first_payload_found(c@, METADATA_TAG, idx as int);
        lemma_replace_first_found(c@, METADATA_TAG, enc_record(value@), idx as int);
    }
    let ghost old_es = c@;
    c.entries[idx] = (METADATA_TAG, encoded);
    proof {
        assert(c@ =~= old_es.update(idx as int, (old_es[idx as int].0, enc_record(value@))));
        assert(c@[idx as int].1 == enc_record(value@));
        if entries_encodable(old_es) && enc_record(value@).len() < 0x1_0000_0000 {
            assert forall|j: int| 0 <= j < c@.len() implies (#[trigger] c@[j]).1.len()
                < 0x1_0000_0000 by {
                if j != idx as int {
                    assert(c@[j] == old_es[j]);
                }
            }
        }
    }
    Ok(())
}

/// Recomputes the record's image, writes it as the payload of the first
/// record entry, and rewrites the full container image at its new exact
/// size, keeping every other entry in place. The buffer is unchanged on
/// failure.
pub fn resize_and_repack(data: &mut Vec<u8>, value: &TokenMetadata) -> (r: Result<(), Error>)
    requires
        crate::record::record_wf(value@),
    ensures
        match r {
            Ok(()) => {
                &&& container_wf(old(data)@)
                &&& record_encodable(value@)
                &&& enc_record(value@).len() < 0x1_0000_0000
                &&& first_payload(entries_of(old(data)@), METADATA_TAG) is Some
                &&& entries_encodable(
                    replace_first(entries_of(old(data)@), METADATA_TAG, enc_record(value@)),
                )
                &&& final(data)@ == container_bytes(
                    replace_first(entries_of(old(data)@), METADATA_TAG, enc_record(value@)),
                )
            },
            Err(e) => {
                &&& final(data)@ == old(data)@
                &&& (e == Error::MalformedContainer || e == Error::NotFound || e
                    == Error::EncodingError)
                &&& (e == Error::MalformedContainer <==> !container_wf(old(data)@))
                &&& (e == Error::NotFound <==> container_wf(old(data)@) && record_encodable(
                    value@,
                ) && first_payload(entries_of(old(data)@), METADATA_TAG) is None)
                &&& (e == Error::EncodingError <==> container_wf(old(data)@) && (
                    !record_encodable(value@) || (first_payload(
                        entries_of(old(data)@),
                        METADATA_TAG,
                    ) is Some && enc_record(value@).len() >= 0x1_0000_0000)))
            },
        },
{
    let mut c = match unpack(data.as_slice()) {
        Ok(c) => c,
        Err(e) => {
            return Err(e);
        },
    };
    let ghost old_es = c@;
    match pack_first_variable_len_value(&mut c, value) {
        Ok(()) => {},
        Err(e) => {
            return Err(e);
        },
    };
    let packed = match pack(&c) {
        Ok(b) => b,
        Err(e) => {
            return Err(e);
        },
    };
    *data = packed;
    Ok(())
}

/// Replacing the first `tag` payload with the payload it already holds
/// changes nothing.
pub proof fn lemma_replace_first_unchanged(es: Seq<(u16, Seq<u8>)>, tag: u16, p: Seq<u8>)
    requires
        first_payload(es, tag) == Some(p),
    ensures
        replace_first(es, tag, p) == es,
    decreases es.len(),
{
    if es.len() == 0 {
    } else if es[0].0 == tag {
        assert(replace_first(es, tag, p) =~= es);
    } else {
        lemma_replace_first_unchanged(es.drop_first(), tag, p);
        assert(replace_first(es, tag, p) =~= es);
    }
}

/// After replacing the first `tag` payload, that tag's first payload is
/// the new one.
pub proof fn lemma_first_payload_after_replace(es: Seq<(u16, Seq<u8>)>, tag: u16, p: Seq<u8>)
    requires
        first_payload(es, tag) is Some,
    ensures
        first_payload(replace_first(es, tag, p), tag) == Some(p),
    decreases es.len(),
{
    if es.len() == 0 {
    } else if es[0].0 == tag {
        let es2 = replace_first(es, tag, p);
        assert(es2[0] == (es[0].0, p));
    } else {
        lemma_first_payload_after_replace(es.drop_first(), tag, p);
        let es2 = replace_first(es, tag, p);
        assert(es2[0] == es[0]);
        assert(es2.drop_first() =~= replace_first(es.drop_first(), tag, p));
    }
}

/// A serialized entry list parses back: the container image of `es` is
/// well formed and holds exactly `es`.
#[verifier::rlimit(100)]
#[verifier::spinoff_prover]
pub proof fn lemma_container_of(es: Seq<(u16, Seq<u8>)>)
    requires
        entries_encodable(es),
    ensures
        container_wf(container_bytes(es)),
        container_bytes(es).len() == 8 + ser_entries(es).len(),
        entries_of(container_bytes(es)) == es,
{
    lemma_entries_roundtrip(es);
    assert(container_bytes(es).skip(8) =~= ser_entries(es));
}

/// The image of a single entry: its six-byte header, then its payload.
#[verifier::rlimit(100)]
#[verifier::spinoff_prover]
pub proof fn lemma_ser_single(e: (u16, Seq<u8>))
    requires
        e.1.len() < 0x1_0000_0000,
    ensures
        ser_entries(seq![e]).len() == 6 + e.1.len(),
{
    let es = seq![e];
    assert(es.drop_first() =~= Seq::<(u16, Seq<u8>)>::empty());
    assert(ser_entries(es.drop_first()) == Seq::<u8>::empty());
    crate::bytes::lemma_u16_le_roundtrip(e.0 as nat);
    crate::bytes::lemma_u32_le_roundtrip(e.1.len());
}

/// Canonicity: a buffer that parses is the serialization of its entry
/// list — each entry list has exactly one image.
#[verifier::rlimit(100)]
#[verifier::spinoff_prover]
pub proof fn lemma_entries_canonical(b: Seq<u8>)
    requires
        dec_entries(b) is Some,
    ensures
        entries_encodable(dec_entries(b).unwrap()),
        ser_entries(dec_entries(b).unwrap()) == b,
    decreases b.len(),
{
    let es = dec_entries(b).unwrap();
    if b.len() == 0 {
        assert(ser_entries(es) =~= b);
    } else {
        let tag = le_u16(b.take(2)) as u16;
        let n = le_u32(b.subrange(2, 6));
        let payload = b.subrange(6, 6 + n as int);
        let rest = b.skip(6 + n as int);
        lemma_entries_canonical(rest);
        let tail = dec_entries(rest).unwrap();
        lemma_u16_le_canonical(b.take(2));
        lemma_u32_le_canonical(b.subrange(2, 6));
        assert(es[0] == (tag, payload));
        assert(es.drop_first() =~= tail);
        assert(u16_le(tag as nat) == b.take(2));
        assert(u32_le(payload.len()) == b.subrange(2, 6));
        assert(ser_entries(es) == u16_le(tag as nat) + u32_le(payload.len()) + payload
            + ser_entries(tail));
        assert(ser_entries(es) =~= b);
        assert forall|i: int| 0 <= i < es.len() implies (#[trigger] es[i]).1.len()
            < 0x1_0000_0000 by {
            if i == 0 {
                assert(es[0].1 == payload);
            } else {
                assert(es[i] == tail[i - 1]);
            }
        }
    }
}

} // verus!
