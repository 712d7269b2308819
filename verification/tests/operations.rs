use token_metadata::funding::FundingSchedule;
use token_metadata::ops::{
    initialize, settle_funding, update_field, AnchorField, Initialize, InitializeData,
    StorageRegion, UpdateField, UpdateFieldData,
};
use token_metadata::record::TokenMetadata;
use token_metadata::tlv::{find_entry, unpack, METADATA_TAG};
use token_metadata::Error;

fn op_key(b: u8) -> Vec<u8> {
    vec![b; 32]
}

fn op_schedule() -> FundingSchedule {
    FundingSchedule { base: 890_880, per_byte: 6_960 }
}

fn op_data() -> InitializeData {
    InitializeData { name: b"Foo".to_vec(), symbol: b"FOO".to_vec(), uri: b"https://x".to_vec() }
}

fn op_decode(region: &StorageRegion) -> TokenMetadata {
    let c = unpack(&region.data).unwrap();
    let payload = find_entry(&c, METADATA_TAG).unwrap();
    TokenMetadata::decode(payload).unwrap()
}

fn op_create(authority: Option<Vec<u8>>) -> (StorageRegion, u64) {
    let mut accounts =
        Initialize { update_authority: authority, mint: op_key(7), payer_funding: u64::MAX / 2 };
    let region = initialize(&mut accounts, op_data(), &op_schedule()).unwrap();
    (region, accounts.payer_funding)
}

#[test]
fn create_unset_authority_then_update_fails() {
    let (region, _) = op_create(None);
    let schedule = op_schedule();
    // The region decodes to exactly the requested record.
    let m = op_decode(&region);
    assert_eq!(m.name, b"Foo".to_vec());
    assert_eq!(m.symbol, b"FOO".to_vec());
    assert_eq!(m.uri, b"https://x".to_vec());
    assert_eq!(m.update_authority, vec![0u8; 32]);
    assert_eq!(m.mint, op_key(7));
    assert!(m.additional_fields.is_empty());
    // The funding matches the schedule exactly.
    assert_eq!(region.funding, schedule.minimum_funding(region.data.len()));
    // Any subsequent update fails: the record is permanently immutable.
    for caller in [op_key(0), op_key(1), op_key(255)] {
        let mut accounts = UpdateField {
            metadata: StorageRegion { data: region.data.clone(), funding: region.funding },
            update_authority: caller,
            mint: op_key(7),
            payer_funding: 1_000_000_000,
        };
        let request = UpdateFieldData { field: AnchorField::Name, value: b"Bar".to_vec() };
        assert_eq!(
            update_field(&mut accounts, request, &schedule).unwrap_err(),
            Error::ImmutableMetadata
        );
        assert_eq!(accounts.metadata.data, region.data);
        assert_eq!(accounts.metadata.funding, region.funding);
        assert_eq!(accounts.payer_funding, 1_000_000_000);
    }
}

#[test]
fn create_with_unset_sentinel_is_invalid() {
    let mut accounts = Initialize {
        update_authority: Some(vec![0u8; 32]),
        mint: op_key(7),
        payer_funding: u64::MAX / 2,
    };
    assert_eq!(
        initialize(&mut accounts, op_data(), &op_schedule()).unwrap_err(),
        Error::InvalidArgument
    );
    assert_eq!(accounts.payer_funding, u64::MAX / 2);
}

#[test]
fn create_fails_when_payer_cannot_fund() {
    let schedule = op_schedule();
    let (region, _) = op_create(None);
    let needed = schedule.minimum_funding(region.data.len());
    let mut accounts =
        Initialize { update_authority: None, mint: op_key(7), payer_funding: needed - 1 };
    assert_eq!(
        initialize(&mut accounts, op_data(), &schedule).unwrap_err(),
        Error::InsufficientFunds
    );
    assert_eq!(accounts.payer_funding, needed - 1);
}

#[test]
fn update_grows_record_and_charges_exact_difference() {
    let authority = op_key(3);
    let schedule = op_schedule();
    let (region, _) = op_create(Some(authority.clone()));
    let old_size = region.data.len();
    let old_funding = region.funding;
    let payer_before: u64 = 1_000_000_000;
    let mut accounts = UpdateField {
        metadata: region,
        update_authority: authority,
        mint: op_key(7),
        payer_funding: payer_before,
    };
    let request =
        UpdateFieldData { field: AnchorField::Key(b"color".to_vec()), value: b"red".to_vec() };
    update_field(&mut accounts, request, &schedule).unwrap();
    let m = op_decode(&accounts.metadata);
    assert_eq!(m.additional_fields, vec![(b"color".to_vec(), b"red".to_vec())]);
    assert_eq!(m.name, b"Foo".to_vec());
    // The region grew and the payer covered exactly the funding difference.
    assert!(accounts.metadata.data.len() > old_size);
    let new_funding = schedule.minimum_funding(accounts.metadata.data.len());
    assert_eq!(accounts.metadata.funding, new_funding);
    assert!(new_funding > old_funding);
    assert_eq!(accounts.payer_funding, payer_before - (new_funding - old_funding));
}

#[test]
fn update_shrinks_record_and_refunds_exact_difference() {
    let authority = op_key(3);
    let schedule = op_schedule();
    let (region, _) = op_create(Some(authority.clone()));
    let mut accounts = UpdateField {
        metadata: region,
        update_authority: authority,
        mint: op_key(7),
        payer_funding: 1_000_000_000,
    };
    let grow =
        UpdateFieldData { field: AnchorField::Key(b"color".to_vec()), value: b"red".to_vec() };
    update_field(&mut accounts, grow, &schedule).unwrap();
    let mid_size = accounts.metadata.data.len();
    let mid_funding = accounts.metadata.funding;
    let mid_payer = accounts.payer_funding;
    let shrink =
        UpdateFieldData { field: AnchorField::Key(b"color".to_vec()), value: Vec::new() };
    update_field(&mut accounts, shrink, &schedule).unwrap();
    let m = op_decode(&accounts.metadata);
    assert_eq!(m.additional_fields, vec![(b"color".to_vec(), Vec::new())]);
    assert!(accounts.metadata.data.len() < mid_size);
    let new_funding = schedule.minimum_funding(accounts.metadata.data.len());
    assert_eq!(accounts.metadata.funding, new_funding);
    assert!(new_funding < mid_funding);
    assert_eq!(accounts.payer_funding, mid_payer + (mid_funding - new_funding));
}

#[test]
fn update_rejects_wrong_authority_and_accepts_right_one() {
    let authority = op_key(3);
    let schedule = op_schedule();
    let (region, _) = op_create(Some(authority.clone()));
    let mut accounts = UpdateField {
        metadata: region,
        update_authority: op_key(4),
        mint: op_key(7),
        payer_funding: 1_000_000_000,
    };
    let request = UpdateFieldData { field: AnchorField::Name, value: b"Bar".to_vec() };
    assert_eq!(
        update_field(&mut accounts, request, &schedule).unwrap_err(),
        Error::IncorrectUpdateAuthority
    );
    accounts.update_authority = authority;
    let request = UpdateFieldData { field: AnchorField::Name, value: b"Bar".to_vec() };
    update_field(&mut accounts, request, &schedule).unwrap();
    assert_eq!(op_decode(&accounts.metadata).name, b"Bar".to_vec());
}

#[test]
fn update_with_same_value_is_a_no_op() {
    let authority = op_key(3);
    let schedule = op_schedule();
    let (region, _) = op_create(Some(authority.clone()));
    let data_before = region.data.clone();
    let funding_before = region.funding;
    let mut accounts = UpdateField {
        metadata: region,
        update_authority: authority,
        mint: op_key(7),
        payer_funding: 500,
    };
    let request = UpdateFieldData { field: AnchorField::Name, value: b"Foo".to_vec() };
    update_field(&mut accounts, request, &schedule).unwrap();
    assert_eq!(accounts.metadata.data, data_before);
    assert_eq!(accounts.metadata.funding, funding_before);
    assert_eq!(accounts.payer_funding, 500);
}

#[test]
fn update_rejects_malformed_region() {
    let mut accounts = UpdateField {
        metadata: StorageRegion { data: vec![1, 0, 0], funding: 0 },
        update_authority: op_key(3),
        mint: op_key(7),
        payer_funding: 1_000,
    };
    let request = UpdateFieldData { field: AnchorField::Name, value: b"Bar".to_vec() };
    assert_eq!(
        update_field(&mut accounts, request, &op_schedule()).unwrap_err(),
        Error::MalformedContainer
    );
    assert_eq!(accounts.metadata.data, vec![1, 0, 0]);
}

#[test]
fn update_reports_missing_record_entry() {
    let c = token_metadata::tlv::TlvContainer { entries: vec![(9, b"other".to_vec())] };
    let data = token_metadata::tlv::pack(&c).unwrap();
    let mut accounts = UpdateField {
        metadata: StorageRegion { data, funding: 0 },
        update_authority: op_key(3),
        mint: op_key(7),
        payer_funding: 1_000,
    };
    let request = UpdateFieldData { field: AnchorField::Name, value: b"Bar".to_vec() };
    assert_eq!(update_field(&mut accounts, request, &op_schedule()).unwrap_err(), Error::NotFound);
}

#[test]
fn update_fails_when_payer_cannot_cover_growth() {
    let authority = op_key(3);
    let schedule = op_schedule();
    let (region, _) = op_create(Some(authority.clone()));
    let old_funding = region.funding;
    let old_data = region.data.clone();
    let mut accounts = UpdateField {
        metadata: region,
        update_authority: authority,
        mint: op_key(7),
        payer_funding: 10,
    };
    let request = UpdateFieldData {
        field: AnchorField::Key(b"color".to_vec()),
        value: b"a value that needs more funding".to_vec(),
    };
    assert_eq!(
        update_field(&mut accounts, request, &schedule).unwrap_err(),
        Error::InsufficientFunds
    );
    assert_eq!(accounts.metadata.data, old_data);
    assert_eq!(accounts.metadata.funding, old_funding);
    assert_eq!(accounts.payer_funding, 10);
}

#[test]
fn settle_funding_moves_exact_amounts() {
    let mut funding: u64 = 100;
    let mut payer: u64 = 50;
    settle_funding(&mut funding, &mut payer, 120).unwrap();
    assert_eq!((funding, payer), (120, 30));
    settle_funding(&mut funding, &mut payer, 80).unwrap();
    assert_eq!((funding, payer), (80, 70));
    settle_funding(&mut funding, &mut payer, 80).unwrap();
    assert_eq!((funding, payer), (80, 70));
    assert_eq!(settle_funding(&mut funding, &mut payer, 200).unwrap_err(), Error::InsufficientFunds);
    assert_eq!((funding, payer), (80, 70));
}

#[test]
fn minimum_funding_is_linear_in_size() {
    let schedule = op_schedule();
    assert_eq!(schedule.minimum_funding(0), 890_880);
    assert_eq!(schedule.minimum_funding(100), 890_880 + 100 * 6_960);
    let saturating = FundingSchedule { base: u64::MAX, per_byte: 2 };
    assert_eq!(saturating.minimum_funding(10), u64::MAX);
}

#[test]
fn update_with_same_value_is_a_no_op_with_foreign_entries() {
    let authority = op_key(3);
    let schedule = op_schedule();
    let record = TokenMetadata {
        update_authority: authority.clone(),
        mint: op_key(7),
        name: b"Foo".to_vec(),
        symbol: b"FOO".to_vec(),
        uri: b"https://x".to_vec(),
        additional_fields: vec![(b"color".to_vec(), b"red".to_vec())],
    };
    let container = token_metadata::tlv::TlvContainer {
        entries: vec![
            (9, b"foreign".to_vec()),
            (METADATA_TAG, record.encode().unwrap()),
            (12, b"tail".to_vec()),
        ],
    };
    let data = token_metadata::tlv::pack(&container).unwrap();
    let funding = schedule.minimum_funding(data.len());
    let mut accounts = UpdateField {
        metadata: StorageRegion { data: data.clone(), funding },
        update_authority: authority,
        mint: op_key(7),
        payer_funding: 700,
    };
    let request =
        UpdateFieldData { field: AnchorField::Key(b"color".to_vec()), value: b"red".to_vec() };
    update_field(&mut accounts, request, &schedule).unwrap();
    assert_eq!(accounts.metadata.data, data);
    assert_eq!(accounts.metadata.funding, funding);
    assert_eq!(accounts.payer_funding, 700);
}
