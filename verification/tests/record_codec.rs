use token_metadata::record::{Field, TokenMetadata};
use token_metadata::Error;

fn rc_key(b: u8) -> Vec<u8> {
    vec![b; 32]
}

fn rc_sample() -> TokenMetadata {
    TokenMetadata {
        update_authority: rc_key(0),
        mint: rc_key(7),
        name: b"Foo".to_vec(),
        symbol: b"FOO".to_vec(),
        uri: b"https://x".to_vec(),
        additional_fields: Vec::new(),
    }
}

fn rc_bstr(s: &[u8]) -> Vec<u8> {
    let mut out = (s.len() as u32).to_le_bytes().to_vec();
    out.extend_from_slice(s);
    out
}

#[test]
fn encode_produces_exact_image() {
    let m = rc_sample();
    let b = m.encode().unwrap();
    let mut expected = vec![0u8; 32];
    expected.extend_from_slice(&[7u8; 32]);
    expected.extend_from_slice(&rc_bstr(b"Foo"));
    expected.extend_from_slice(&rc_bstr(b"FOO"));
    expected.extend_from_slice(&rc_bstr(b"https://x"));
    expected.extend_from_slice(&[0u8, 0, 0, 0]);
    assert_eq!(b, expected);
}

#[test]
fn decode_encode_roundtrip_plain() {
    let m = rc_sample();
    let b = m.encode().unwrap();
    let d = TokenMetadata::decode(&b).unwrap();
    assert_eq!(d.update_authority, m.update_authority);
    assert_eq!(d.mint, m.mint);
    assert_eq!(d.name, m.name);
    assert_eq!(d.symbol, m.symbol);
    assert_eq!(d.uri, m.uri);
    assert_eq!(d.additional_fields, m.additional_fields);
}

#[test]
fn decode_encode_roundtrip_with_pairs() {
    let mut m = rc_sample();
    m.update_authority = rc_key(9);
    m.additional_fields = vec![
        (b"color".to_vec(), b"red".to_vec()),
        (b"".to_vec(), b"empty key".to_vec()),
        (b"color".to_vec(), b"blue".to_vec()),
    ];
    let b = m.encode().unwrap();
    let d = TokenMetadata::decode(&b).unwrap();
    assert_eq!(d.additional_fields, m.additional_fields);
    assert_eq!(d.update_authority, m.update_authority);
}

#[test]
fn decode_rejects_truncated_buffer() {
    let b = rc_sample().encode().unwrap();
    let short = &b[..b.len() - 1];
    assert_eq!(TokenMetadata::decode(short).unwrap_err(), Error::MalformedContainer);
    assert_eq!(TokenMetadata::decode(&[]).unwrap_err(), Error::MalformedContainer);
    assert_eq!(TokenMetadata::decode(&b[..63]).unwrap_err(), Error::MalformedContainer);
}

#[test]
fn decode_rejects_trailing_bytes() {
    let mut b = rc_sample().encode().unwrap();
    b.push(0);
    assert_eq!(TokenMetadata::decode(&b).unwrap_err(), Error::MalformedContainer);
}

#[test]
fn decode_rejects_overlong_length_field() {
    let mut b = rc_sample().encode().unwrap();
    // The name length field sits right after the two 32-byte keys.
    b[64] = 0xff;
    assert_eq!(TokenMetadata::decode(&b).unwrap_err(), Error::MalformedContainer);
}

#[test]
fn update_replaces_fixed_fields() {
    let mut m = rc_sample();
    m.update(Field::Name, b"Bar".to_vec());
    assert_eq!(m.name, b"Bar".to_vec());
    m.update(Field::Symbol, b"BAR".to_vec());
    assert_eq!(m.symbol, b"BAR".to_vec());
    m.update(Field::Uri, b"https://y".to_vec());
    assert_eq!(m.uri, b"https://y".to_vec());
    assert_eq!(m.mint, rc_key(7));
    assert_eq!(m.update_authority, rc_key(0));
}

#[test]
fn update_key_appends_when_absent() {
    let mut m = rc_sample();
    m.additional_fields = vec![(b"a".to_vec(), b"1".to_vec()), (b"b".to_vec(), b"2".to_vec())];
    m.update(Field::Key(b"c".to_vec()), b"3".to_vec());
    assert_eq!(
        m.additional_fields,
        vec![
            (b"a".to_vec(), b"1".to_vec()),
            (b"b".to_vec(), b"2".to_vec()),
            (b"c".to_vec(), b"3".to_vec()),
        ]
    );
}

#[test]
fn update_key_replaces_first_match_only() {
    let mut m = rc_sample();
    m.additional_fields = vec![
        (b"a".to_vec(), b"1".to_vec()),
        (b"b".to_vec(), b"2".to_vec()),
        (b"a".to_vec(), b"3".to_vec()),
    ];
    m.update(Field::Key(b"a".to_vec()), b"9".to_vec());
    assert_eq!(
        m.additional_fields,
        vec![
            (b"a".to_vec(), b"9".to_vec()),
            (b"b".to_vec(), b"2".to_vec()),
            (b"a".to_vec(), b"3".to_vec()),
        ]
    );
}

#[test]
fn update_with_current_value_changes_nothing() {
    let mut m = rc_sample();
    m.additional_fields = vec![(b"a".to_vec(), b"1".to_vec())];
    let before = m.encode().unwrap();
    m.update(Field::Name, b"Foo".to_vec());
    m.update(Field::Key(b"a".to_vec()), b"1".to_vec());
    let after = m.encode().unwrap();
    assert_eq!(before, after);
}

#[test]
fn tlv_size_of_counts_headers() {
    let m = rc_sample();
    let encoded = m.encode().unwrap();
    assert_eq!(m.tlv_size_of().unwrap(), 14 + encoded.len());
}
