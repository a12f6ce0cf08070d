use amc::discovery::{resolve_monitor_id, EdidProperty};
use amc::error::DiscoveryError;
use amc::identity::make_id_from_edid;

fn edid(is_integer: bool, format: u8, data: Vec<u8>) -> Option<EdidProperty> {
    Some(EdidProperty { is_integer, format, data })
}

#[test]
fn empty_edid_hashes_to_zero() {
    assert_eq!(make_id_from_edid(&[]), 0);
}

#[test]
fn hash_mixes_each_byte() {
    assert_eq!(make_id_from_edid(&[1]), 1);
    assert_eq!(make_id_from_edid(&[1, 2]), 65599 + 2);
    let expected = (((0xffu64 * 65599 + 0xff) * 65599 + 0xff) % (1u64 << 32)) as u32;
    assert_eq!(make_id_from_edid(&[0xff, 0xff, 0xff]), expected);
}

#[test]
fn hash_wraps_modulo_two_to_the_32() {
    let bytes: Vec<u8> = (0..=255u8).collect();
    let mut acc: u32 = 0;
    for b in &bytes {
        acc = (acc << 6).wrapping_add(acc << 16).wrapping_add(*b as u32).wrapping_sub(acc);
    }
    assert_eq!(make_id_from_edid(&bytes), acc);
}

#[test]
fn hash_is_deterministic() {
    let block: Vec<u8> = (0..128u32).map(|i| (i * 7 + 3) as u8).collect();
    let again = block.clone();
    assert_eq!(make_id_from_edid(&block), make_id_from_edid(&again));
}

#[test]
fn hash_depends_on_byte_order() {
    assert_ne!(make_id_from_edid(&[1, 2]), make_id_from_edid(&[2, 1]));
}

#[test]
fn identity_of_valid_edid() {
    assert_eq!(resolve_monitor_id(&edid(true, 8, vec![1, 2])), Ok(65601));
}

#[test]
fn missing_edid_is_an_error() {
    assert_eq!(resolve_monitor_id(&None), Err(DiscoveryError::MissingEdid));
}

#[test]
fn edid_of_wrong_type_or_format_is_an_error() {
    assert_eq!(resolve_monitor_id(&edid(false, 8, vec![1])), Err(DiscoveryError::MalformedEdid));
    assert_eq!(resolve_monitor_id(&edid(true, 16, vec![1])), Err(DiscoveryError::MalformedEdid));
}

#[test]
fn edid_hashing_to_zero_is_an_error() {
    assert_eq!(resolve_monitor_id(&edid(true, 8, vec![])), Err(DiscoveryError::ReservedIdentity));
    assert_eq!(resolve_monitor_id(&edid(true, 8, vec![0, 0, 0])), Err(DiscoveryError::ReservedIdentity));
}
