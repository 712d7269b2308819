//! The two lifecycle operations, `initialize` and `update_field`, over an
//! in-memory model of the host's accounts: a storage region is its raw
//! container bytes plus its funding balance, and the funding parties are
//! plain balances. The host performs the actual allocation, transfer and
//! signature checks; these functions decide and describe every state
//! transition exactly.

use crate::bytes::{bytes_equal, clone_bytes, zero_bytes};
use crate::funding::{min_funding, FundingSchedule};
use crate::record::{
    dec_record, enc_record, field_value, key_is_unset, record_encodable, record_fits, record_wf,
    update_record, zero_key, Field, FieldView, RecordView, TokenMetadata,
};
use crate::tlv::{
    container_bytes, container_wf, entries_encodable, entries_of, find_entry, first_payload,
    lemma_first_payload_after_replace, lemma_replace_first_unchanged, pack,
    pack_first_variable_len_value, replace_first, unpack, TlvContainer, METADATA_TAG,
};
use crate::Error;
use vstd::prelude::*;

verus! {

/// A storage region: its raw bytes, which hold a TLV container, and its
/// funding balance.
#[derive(Debug)]
pub struct StorageRegion {
    pub data: Vec<u8>,
    pub funding: u64,
}

/// The record a container buffer stores under the record tag, if any.
pub open spec fn stored_record(b: Seq<u8>) -> Option<RecordView> {
    if !container_wf(b) {
        None
    } else {
        match first_payload(entries_of(b), METADATA_TAG) {
            None => None,
            Some(p) => dec_record(p),
        }
    }
}

/// The request payload of an `initialize` call.
#[derive(Debug)]
pub struct InitializeData {
    pub name: Vec<u8>,
    pub symbol: Vec<u8>,
    pub uri: Vec<u8>,
}

/// The accounts an `initialize` call works on. The storage region itself
/// does not exist yet; the host creates it at the canonical derived
/// address with the size and funding this operation computes.
pub struct Initialize {
    /// The optional update authority's key.
    pub update_authority: Option<Vec<u8>>,
    /// The mint the new record will describe.
    pub mint: Vec<u8>,
    /// The funding balance of the party paying for the new region.
    pub payer_funding: u64,
}

/// The request payload of an `update_field` call.
#[derive(Debug)]
pub struct UpdateFieldData {
    /// The field to update.
    pub field: AnchorField,
    /// The value to write.
    pub value: Vec<u8>,
}

/// The accounts an `update_field` call works on.
pub struct UpdateField {
    /// The storage region holding the record.
    pub metadata: StorageRegion,
    /// The caller's identity, asserted by the host's signature check.
    pub update_authority: Vec<u8>,
    /// The mint the record describes.
    pub mint: Vec<u8>,
    /// The funding balance of the party paying for growth, and receiving
    /// any excess on shrinkage.
    pub payer_funding: u64,
}

/// A field selector as a client request names it.
#[derive(Debug)]
pub enum AnchorField {
    /// The name field.
    Name,
    /// The symbol field.
    Symbol,
    /// The uri field.
    Uri,
    /// A user field, whose key is the associated byte string.
    Key(Vec<u8>),
}

impl View for AnchorField {
    type V = FieldView;

    open spec fn view(&self) -> FieldView {
        match self {
            AnchorField::Name => FieldView::Name,
            AnchorField::Symbol => FieldView::Symbol,
            AnchorField::Uri => FieldView::Uri,
            AnchorField::Key(k) => FieldView::Key(k@),
        }
    }
}

impl AnchorField {
    /// The codec-level field selector this request names.
    pub fn to_field(&self) -> (r: Field)
        ensures
            r@ == self@,
    {
        match self {
            AnchorField::Name => Field::Name,
            AnchorField::Symbol => Field::Symbol,
            AnchorField::Uri => Field::Uri,
            AnchorField::Key(s) => Field::Key(clone_bytes(s)),
        }
    }
}

/// The update-authority key an `initialize` request normalizes to: the
/// unset sentinel when absent.
pub open spec fn normalized_authority(a: Option<Vec<u8>>) -> Seq<u8> {
    match a {
        Some(k) => k@,
        None => zero_key(),
    }
}

/// The record an `initialize` request builds.
pub open spec fn initial_record(accounts: Initialize, data: InitializeData) -> RecordView {
    RecordView {
        update_authority: normalized_authority(accounts.update_authority),
        mint: accounts.mint@,
        name: data.name@,
        symbol: data.symbol@,
        uri: data.uri@,
        additional_fields: Seq::empty(),
    }
}

#[verifier::rlimit(100)]
#[verifier::spinoff_prover]
proof fn lemma_stored_in_single(rec: RecordView)
    requires
        record_encodable(rec),
        enc_record(rec).len() < 0x1_0000_0000,
    ensures
        ({
            let es = seq![(METADATA_TAG, enc_record(rec))];
            &&& entries_encodable(es)
            &&& container_wf(container_bytes(es))
            &&& entries_of(container_bytes(es)) == es
            &&& container_bytes(es).len() == 14 + enc_record(rec).len()
            &&& stored_record(container_bytes(es)) == Some(rec)
        }),
{
    let es = seq![(METADATA_TAG, enc_record(rec))];
    assert forall|i: int| 0 <= i < es.len() implies (#[trigger] es[i]).1.len()
        < 0x1_0000_0000 by {
        assert(es[i] == es[0]);
    }
    crate::tlv::lemma_container_of(es);
    crate::tlv::lemma_ser_single((METADATA_TAG, enc_record(rec)));
    assert(first_payload(es, METADATA_TAG) == Some(enc_record(rec)));
    crate::record::lemma_record_roundtrip(rec);
}

#[verifier::rlimit(100)]
#[verifier::spinoff_prover]
proof fn lemma_stored_after_replace(es: Seq<(u16, Seq<u8>)>, rec: RecordView)
    requires
        record_encodable(rec),
        first_payload(es, METADATA_TAG) is Some,
        entries_encodable(replace_first(es, METADATA_TAG, enc_record(rec))),
    ensures
        ({
            let es2 = replace_first(es, METADATA_TAG, enc_record(rec));
            &&& container_wf(container_bytes(es2))
            &&& entries_of(container_bytes(es2)) == es2
            &&& stored_record(container_bytes(es2)) == Some(rec)
        }),
{
    let es2 = replace_first(es, METADATA_TAG, enc_record(rec));
    crate::tlv::lemma_container_of(es2);
    lemma_first_payload_after_replace(es, METADATA_TAG, enc_record(rec));
    crate::record::lemma_record_roundtrip(rec);
}

/// Builds the one-entry container image that stores `record` alone.
#[verifier::rlimit(100)]
#[verifier::spinoff_prover]
fn packed_container(record: &TokenMetadata) -> (r: Result<Vec<u8>, Error>)
    requires
        record_wf(record@),
    ensures
        match r {
            Ok(b) => {
                &&& record_fits(record@)
                &&& b@ == container_bytes(seq![(METADATA_TAG, enc_record(record@))])
                &&& b@.len() == 14 + enc_record(record@).len()
                &&& stored_record(b@) == Some(record@)
            },
            Err(e) => e == Error::EncodingError && !record_fits(record@),
        },
{
    let encoded = match record.encode() {
        Ok(b) => b,
        Err(e) => {
            return Err(e);
        },
    };
    if encoded.len() as u64 >= 0x1_0000_0000u64 {
        return Err(Error::EncodingError);
    }
    if encoded.len() > usize::MAX - 14 {
        return Err(Error::EncodingError);
    }
    let mut entries: Vec<(u16, Vec<u8>)> = Vec::new();
    entries.push((METADATA_TAG, encoded));
    let container = TlvContainer { entries };
    proof {
        assert(container@ =~= seq![(METADATA_TAG, enc_record(record@))]);
        assert forall|i: int| 0 <= i < container@.len() implies (#[trigger] container@[i]).1.len()
            < 0x1_0000_0000 by {
            assert(container@[i] == container@[0]);
        }
        assert(entries_encodable(container@));
        lemma_stored_in_single(record@);
    }
    let packed = match pack(&container) {
        Ok(b) => b,
        Err(e) => {
            proof {
                assert(false);
            }
            return Err(e);
        },
    };
    proof {
        assert(packed@.len() == 14 + enc_record(record@).len());
    }
    Ok(packed)
}

/// Decodes the record stored in a container buffer.
fn decode_stored(b: &[u8]) -> (r: Result<TokenMetadata, Error>)
    ensures
        ({
            let entry = (if container_wf(b@) {
                first_payload(entries_of(b@), METADATA_TAG)
            } else {
                None
            });
            let decoded = (match entry {
                Some(p) => dec_record(p),
                None => None,
            });
            match r {
                Ok(m) => decoded == Some(m@) && record_encodable(m@),
                Err(e) => {
                    &&& decoded is None
                    &&& (e == Error::MalformedContainer || e == Error::NotFound)
                    &&& (e == Error::MalformedContainer <==> !container_wf(b@) || (
                        entry is Some && decoded is None))
                    &&& (e == Error::NotFound <==> container_wf(b@) && entry is None)
                },
            }
        }),
{
    let container = match unpack(b) {
        Ok(c) => c,
        Err(e) => {
            return Err(e);
        },
    };
    let payload = match find_entry(&container, METADATA_TAG) {
        Ok(p) => p,
        Err(e) => {
            return Err(e);
        },
    };
    match TokenMetadata::decode(payload.as_slice()) {
        Ok(m) => Ok(m),
        Err(e) => Err(e),
    }
}

/// The container image of `b` after the stored record is replaced by
/// `record`, at its new exact size.
#[verifier::rlimit(100)]
#[verifier::spinoff_prover]
fn repacked(b: &Vec<u8>, record: &TokenMetadata) -> (r: Result<Vec<u8>, Error>)
    requires
        record_wf(record@),
        container_wf(b@),
        first_payload(entries_of(b@), METADATA_TAG) is Some,
    ensures
        ({
            let new_bytes = container_bytes(
                replace_first(entries_of(b@), METADATA_TAG, enc_record(record@)),
            );
            match r {
                Ok(nb) => {
                    &&& record_encodable(record@)
                    &&& enc_record(record@).len() < 0x1_0000_0000
                    &&& nb@ == new_bytes
                    &&& stored_record(new_bytes) == Some(record@)
                },
                Err(e) => e == Error::EncodingError && !(record_encodable(record@)
                    && enc_record(record@).len() < 0x1_0000_0000),
            }
        }),
{
    let mut container = match unpack(b.as_slice()) {
        Ok(c) => c,
        Err(e) => {
            proof {
                assert(false);
            }
            return Err(e);
        },
    };
    match pack_first_variable_len_value(&mut container, record) {
        Ok(()) => {},
        Err(e) => {
            return Err(e);
        },
    };
    let packed = match pack(&container) {
        Ok(nb) => nb,
        Err(e) => {
            return Err(e);
        },
    };
    proof {
        lemma_stored_after_replace(entries_of(b@), record@);
    }
    Ok(packed)
}

/// Moves the exact funding difference between a region's balance and the
/// payer: the payer covers an increase in full, and receives any excess
/// back in full; fails with `InsufficientFunds`, moving nothing, exactly
/// when the payer cannot cover the increase.
pub fn settle_funding(funding: &mut u64, payer: &mut u64, required: u64) -> (r: Result<
    (),
    Error,
>)
    requires
        *old(payer) + *old(funding) <= u64::MAX,
    ensures
        match r {
            Ok(()) => {
                &&& *final(funding) == required
                &&& *final(payer) + required == *old(payer) + *old(funding)
                &&& (required > *old(funding) ==> *old(payer) >= required - *old(funding))
            },
            Err(e) => {
                &&& e == Error::InsufficientFunds
                &&& *final(funding) == *old(funding)
                &&& *final(payer) == *old(payer)
                &&& required > *old(funding)
                &&& *old(payer) < required - *old(funding)
            },
        },
{
    let current = *funding;
    if required > current {
        let difference = required - current;
        if *payer < difference {
            return Err(Error::InsufficientFunds);
        }
        *payer = *payer - difference;
        *funding = required;
    } else if required < current {
        let difference = current - required;
        *funding = required;
        *payer = *payer + difference;
    }
    Ok(())
}

/// Builds a fresh record from the request, computes its container size
/// and the funding that size requires, charges the payer, and returns the
/// initialized region: a container holding exactly one record entry.
///
/// Fails with `InvalidArgument` when the provided authority is the unset
/// sentinel, with `EncodingError` when the record does not fit the
/// encoding's length fields, and with `InsufficientFunds` when the payer
/// cannot cover the required funding. The accounts are unchanged on
/// failure.
#[verifier::rlimit(100)]
#[verifier::spinoff_prover]
pub fn initialize(
    accounts: &mut Initialize,
    data: InitializeData,
    schedule: &FundingSchedule,
) -> (r: Result<StorageRegion, Error>)
    requires
        old(accounts).mint@.len() == 32,
        old(accounts).update_authority matches Some(k) ==> k@.len() == 32,
    ensures
        ({
            let rec = initial_record(*old(accounts), data);
            let provided_unset = (old(accounts).update_authority matches Some(k) && k@
                == zero_key());
            let required = min_funding(*schedule, 14 + enc_record(rec).len());
            match r {
                Ok(region) => {
                    &&& !provided_unset
                    &&& record_fits(rec)
                    &&& region.data@ == container_bytes(seq![(METADATA_TAG, enc_record(rec))])
                    &&& stored_record(region.data@) == Some(rec)
                    &&& region.funding as nat == min_funding(*schedule, region.data@.len())
                    &&& region.funding as nat == required
                    &&& final(accounts).payer_funding == old(accounts).payer_funding
                        - region.funding
                    &&& final(accounts).update_authority == old(accounts).update_authority
                    &&& final(accounts).mint == old(accounts).mint
                },
                Err(e) => {
                    &&& *final(accounts) == *old(accounts)
                    &&& (e == Error::InvalidArgument || e == Error::EncodingError || e
                        == Error::InsufficientFunds)
                    &&& (e == Error::InvalidArgument <==> provided_unset)
                    &&& (e == Error::EncodingError <==> !provided_unset && !record_fits(rec))
                    &&& (e == Error::InsufficientFunds <==> !provided_unset && record_fits(rec)
                        && old(accounts).payer_funding < required)
                },
            }
        }),
{
    let update_authority: Vec<u8> = match &accounts.update_authority {
        Some(k) => {
            if key_is_unset(k) {
                return Err(Error::InvalidArgument);
            }
            clone_bytes(k)
        },
        None => {
            let z = zero_bytes(32);
            proof {
                assert(z@ =~= zero_key());
            }
            z
        },
    };
    let token_metadata = TokenMetadata {
        update_authority,
        mint: clone_bytes(&accounts.mint),
        name: data.name,
        symbol: data.symbol,
        uri: data.uri,
        additional_fields: Vec::new(),
    };
    proof {
        assert(crate::record::pairs_view(token_metadata.additional_fields@) =~= Seq::<
            (Seq<u8>, Seq<u8>),
        >::empty());
        assert(token_metadata@ =~= initial_record(*old(accounts), data));
    }
    let packed = match packed_container(&token_metadata) {
        Ok(b) => b,
        Err(e) => {
            return Err(e);
        },
    };
    let required = schedule.minimum_funding(packed.len());
    if accounts.payer_funding < required {
        return Err(Error::InsufficientFunds);
    }
    accounts.payer_funding = accounts.payer_funding - required;
    Ok(StorageRegion { data: packed, funding: required })
}

/// Decodes the stored record, checks the caller against its update
/// authority, applies the field update, settles the funding difference
/// for the new size with the payer, and rewrites the region at its new
/// exact size.
///
/// Fails with `MalformedContainer` when the container or the record does
/// not decode, with `NotFound` when the container has no record entry,
/// with `ImmutableMetadata` when the stored authority is unset — for any
/// caller — with `IncorrectUpdateAuthority` when the caller is not the
/// stored authority, with `EncodingError` when the updated record does
/// not fit the encoding's length fields, and with `InsufficientFunds`
/// when the payer cannot cover the funding increase. The accounts are
/// unchanged on failure.
#[verifier::rlimit(100)]
#[verifier::spinoff_prover]
pub fn update_field(
    accounts: &mut UpdateField,
    data: UpdateFieldData,
    schedule: &FundingSchedule,
) -> (r: Result<(), Error>)
    requires
        old(accounts).update_authority@.len() == 32,
        old(accounts).payer_funding + old(accounts).metadata.funding <= u64::MAX,
    ensures
        ({
            let old_bytes = old(accounts).metadata.data@;
            let caller = old(accounts).update_authority@;
            let entry = (if container_wf(old_bytes) {
                first_payload(entries_of(old_bytes), METADATA_TAG)
            } else {
                None
            });
            let decoded = (match entry {
                Some(p) => dec_record(p),
                None => None,
            });
            let rec0 = decoded.unwrap();
            let rec1 = update_record(rec0, data.field@, data.value@);
            let authorized = decoded is Some && rec0.update_authority != zero_key()
                && rec0.update_authority == caller;
            let fits = record_encodable(rec1) && enc_record(rec1).len() < 0x1_0000_0000;
            let new_bytes = container_bytes(
                replace_first(entries_of(old_bytes), METADATA_TAG, enc_record(rec1)),
            );
            let required = min_funding(*schedule, new_bytes.len());
            match r {
                Ok(()) => {
                    &&& authorized
                    &&& fits
                    &&& final(accounts).metadata.data@ == new_bytes
                    &&& stored_record(new_bytes) == Some(rec1)
                    &&& final(accounts).metadata.funding as nat == required
                    &&& final(accounts).payer_funding + final(accounts).metadata.funding == old(
                        accounts,
                    ).payer_funding + old(accounts).metadata.funding
                    &&& final(accounts).update_authority == old(accounts).update_authority
                    &&& final(accounts).mint == old(accounts).mint
                },
                Err(e) => {
                    &&& *final(accounts) == *old(accounts)
                    &&& (e == Error::MalformedContainer || e == Error::NotFound || e
                        == Error::ImmutableMetadata || e == Error::IncorrectUpdateAuthority
                        || e == Error::EncodingError || e == Error::InsufficientFunds)
                    &&& (e == Error::MalformedContainer <==> !container_wf(old_bytes) || (
                        entry is Some && decoded is None))
                    &&& (e == Error::NotFound <==> container_wf(old_bytes) && entry is None)
                    &&& (e == Error::ImmutableMetadata <==> decoded is Some
                        && rec0.update_authority == zero_key())
                    &&& (e == Error::IncorrectUpdateAuthority <==> decoded is Some
                        && rec0.update_authority != zero_key() && rec0.update_authority
                        != caller)
                    &&& (e == Error::EncodingError <==> authorized && !fits)
                    &&& (e == Error::InsufficientFunds <==> authorized && fits && required
                        > old(accounts).metadata.funding && old(accounts).payer_funding
                        < required - old(accounts).metadata.funding)
                },
            }
        }),
{
    let field = data.field.to_field();
    let mut token_metadata = match decode_stored(accounts.metadata.data.as_slice()) {
        Ok(m) => m,
        Err(e) => {
            return Err(e);
        },
    };
    if key_is_unset(&token_metadata.update_authority) {
        return Err(Error::ImmutableMetadata);
    }
    if !bytes_equal(&token_metadata.update_authority, &accounts.update_authority) {
        return Err(Error::IncorrectUpdateAuthority);
    }
    token_metadata.update(field, data.value);
    let new_data = match repacked(&accounts.metadata.data, &token_metadata) {
        Ok(nb) => nb,
        Err(e) => {
            return Err(e);
        },
    };
    let required = schedule.minimum_funding(new_data.len());
    match settle_funding(&mut accounts.metadata.funding, &mut accounts.payer_funding, required) {
        Ok(()) => {},
        Err(e) => {
            return Err(e);
        },
    };
    accounts.metadata.data = new_data;
    Ok(())
}

/// Immutability law: no field update ever changes the update authority,
/// so a record created with it unset stays unset forever; `update_field`'s
/// contract then makes every call on such a record fail with
/// `ImmutableMetadata`, whoever the caller is.
pub proof fn lemma_unset_authority_is_permanent(rec: RecordView, f: FieldView, v: Seq<u8>)
    requires
        rec.update_authority == zero_key(),
    ensures
        update_record(rec, f, v).update_authority == zero_key(),
{
}

/// Idempotence law, general form: in any region whose container stores a
/// decodable record, updating a field with its stored current value
/// rewrites the entry list unchanged — every stored payload is the
/// canonical image of its record — so the region's image length and
/// required funding stay exactly as they were.
pub proof fn lemma_update_field_noop_general(b: Seq<u8>, f: FieldView, v: Seq<u8>)
    requires
        container_wf(b),
        stored_record(b) is Some,
        field_value(stored_record(b).unwrap(), f) == Some(v),
    ensures
        replace_first(
            entries_of(b),
            METADATA_TAG,
            enc_record(update_record(stored_record(b).unwrap(), f, v)),
        ) == entries_of(b),
{
    let p = first_payload(entries_of(b), METADATA_TAG).unwrap();
    let rec = stored_record(b).unwrap();
    assert(first_payload(entries_of(b), METADATA_TAG) == Some(p));
    assert(dec_record(p) == Some(rec));
    crate::record::lemma_record_canonical(p, rec);
    lemma_update_field_noop(entries_of(b), rec, f, v);
}

/// Idempotence law: updating a field with its current value rewrites the
/// entry list unchanged, so a region holding the canonical image of its
/// entries keeps its exact bytes, size and required funding.
pub proof fn lemma_update_field_noop(
    es: Seq<(u16, Seq<u8>)>,
    rec: RecordView,
    f: FieldView,
    v: Seq<u8>,
)
    requires
        first_payload(es, METADATA_TAG) == Some(enc_record(rec)),
        field_value(rec, f) == Some(v),
    ensures
        replace_first(es, METADATA_TAG, enc_record(update_record(rec, f, v))) == es,
{
    crate::record::lemma_update_noop(rec, f, v);
    lemma_replace_first_unchanged(es, METADATA_TAG, enc_record(rec));
}

} // verus!
