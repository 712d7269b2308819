//! A minimal metadata store for token mints: a mutable, extensible key/value
//! metadata record held inside a type-length-value (TLV) container, with
//! size-proportional funding of the backing storage region.
//!
//! The library is organised bottom-up:
//! - `bytes`: little-endian length fields and byte-string helpers;
//! - `record`: the metadata record, its wire encoding and field updates;
//! - `tlv`: the TLV container that wraps the record among other entries;
//! - `funding`: the size-proportional funding schedule;
//! - `ops`: the two lifecycle operations, `initialize` and `update_field`.

use vstd::prelude::*;

pub mod bytes;
pub mod record;
pub mod tlv;
pub mod funding;
pub mod ops;

verus! {

/// Every way an operation can fail. Each operation's contract states exactly
/// which inputs produce which variant.
#[derive(Clone, Copy, Debug, PartialEq, Eq, Structural)]
pub enum Error {
    /// The container buffer is shorter than its header, an entry header is
    /// truncated, a declared entry length exceeds the remaining buffer, or a
    /// record payload does not decode.
    MalformedContainer,
    /// An entry of the requested type already exists and overwriting was not
    /// requested.
    DuplicateEntry,
    /// No entry of the requested type exists.
    NotFound,
    /// The container's backing allocation is smaller than required.
    OutOfSpace,
    /// A length does not fit in the encoding's 32-bit length field.
    EncodingError,
    /// The provided update authority is the unset sentinel.
    InvalidArgument,
    /// The storage address is not the canonical derived address.
    InvalidSeeds,
    /// The record has no update authority; it is permanently immutable.
    ImmutableMetadata,
    /// The caller is not the record's update authority.
    IncorrectUpdateAuthority,
    /// The funding party cannot cover the required funding increase.
    InsufficientFunds,
}

} // verus!
