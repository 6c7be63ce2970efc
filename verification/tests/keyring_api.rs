//! The membership view, the engine tags, and the membership envelope.

use sha2::Digest;
use openom::keyring_api::{
    derive_member_id, derive_member_id_bytes, EngineKind, EnvelopeError, MemberView, MembershipEnvelope, MembershipView,
    UnknownEngine, MEMBERSHIP_ENVELOPE_VERSION,
};

fn m(id: &str, role: i16) -> MemberView {
    MemberView {
        member_id: id.to_string(),
        role,
        author_public_key: vec![role.to_le_bytes()[0]],
        hpke_public_key: vec![role.to_le_bytes()[0]],
    }
}

#[test]
fn view_sorts_members_for_a_deterministic_engine_independent_shape() {
    let a = MembershipView::new(vec![m("carol", 4), m("owner", 1), m("bob", 2)], false);
    let b = MembershipView::new(vec![m("bob", 2), m("carol", 4), m("owner", 1)], false);
    assert_eq!(a, b, "member order does not affect the resolved view");
    assert_eq!(
        a.members.iter().map(|m| m.member_id.as_str()).collect::<Vec<_>>(),
        vec!["bob", "carol", "owner"],
    );
}

#[test]
fn signer_and_owner_classification_matches_the_role_axis() {
    let v = MembershipView::new(vec![m("owner", 1), m("bob", 2), m("dave", 3), m("ed", 4)], false);
    assert_eq!(v.owner().map(|o| o.member_id.as_str()), Some("owner"));
    // signers = Owner(1) + CoOwner(2); Maintainer(3)/Editor(4) are not.
    let signers: Vec<_> = v.signers().iter().map(|s| s.member_id.clone()).collect();
    assert_eq!(signers, vec!["bob".to_string(), "owner".to_string()]);
    assert!(m("bob", 2).is_signer() && !m("dave", 3).is_signer());
    assert!(m("owner", 1).is_owner() && !m("bob", 2).is_owner());
}

#[test]
fn engine_tag_round_trips_and_rejects_the_unknown() {
    for k in [EngineKind::Chain, EngineKind::Dag] {
        assert_eq!(EngineKind::from_tag(k.as_tag()).unwrap(), k);
    }
    assert_eq!(EngineKind::from_tag("chain").unwrap(), EngineKind::Chain);
    assert_eq!(EngineKind::from_tag("dag").unwrap(), EngineKind::Dag);
    assert_eq!(EngineKind::from_tag("mosaic").unwrap_err(), UnknownEngine("mosaic".to_string()));
    assert_eq!(EngineKind::from_tag("dag").unwrap().as_tag(), "dag");
}

#[test]
fn membership_envelope_round_trips_and_rejects_a_future_version() {
    let env = MembershipEnvelope::wrap(EngineKind::Dag, b"opaque-op-bytes".to_vec());
    let bytes = env.encode();
    let back = MembershipEnvelope::decode(&bytes).unwrap();
    assert_eq!(back, env);
    assert_eq!(back.engine_kind().unwrap(), EngineKind::Dag);
    assert_eq!(back.body, b"opaque-op-bytes");

    // A future version is refused (fail closed), never misparsed as the current layout.
    let future =
        MembershipEnvelope { version: MEMBERSHIP_ENVELOPE_VERSION + 1, engine: "dag".into(), body: vec![] };
    assert_eq!(
        MembershipEnvelope::decode(&future.encode()).unwrap_err(),
        EnvelopeError::UnsupportedVersion(MEMBERSHIP_ENVELOPE_VERSION + 1),
    );
}

#[test]
fn member_id_string_is_the_canonical_form_of_its_uuid_bytes() {
    let public_key = [7u8; 32];
    let bytes = derive_member_id_bytes(&public_key);
    let expected = format!(
        "{:02x}{:02x}{:02x}{:02x}-{:02x}{:02x}-{:02x}{:02x}-{:02x}{:02x}-{:02x}{:02x}{:02x}{:02x}{:02x}{:02x}",
        bytes[0], bytes[1], bytes[2], bytes[3], bytes[4], bytes[5], bytes[6], bytes[7],
        bytes[8], bytes[9], bytes[10], bytes[11], bytes[12], bytes[13], bytes[14], bytes[15],
    );
    assert_eq!(derive_member_id(&public_key), expected);
    assert_eq!(bytes[6] >> 4, 8, "UUID version is 8");
    assert_eq!(bytes[8] >> 6, 2, "UUID variant is RFC 4122");
}

#[test]
fn a_member_id_is_cut_from_the_digest_of_its_key() {
    let key = [3u8; 32];
    let d = sha2::Sha256::digest(key);
    let id = derive_member_id_bytes(&key);
    for i in 0..16 {
        if i != 6 && i != 8 {
            assert_eq!(id[i], d[i]);
        }
    }
    assert_eq!(id[6], (d[6] & 0x0f) | 0x80);
    assert_eq!(id[8], (d[8] & 0x3f) | 0x80);
}

#[test]
fn an_envelope_has_the_bytes_of_its_fields() {
    let env = MembershipEnvelope::wrap(EngineKind::Chain, vec![0xAA]);
    assert_eq!(env.encode(), vec![0x08, 1, 0x12, 5, b'c', b'h', b'a', b'i', b'n', 0x1A, 1, 0xAA]);
}

#[test]
fn bytes_that_are_no_envelope_are_refused() {
    assert!(MembershipEnvelope::decode(&[0x08]).is_err());
    assert!(MembershipEnvelope::decode(&[0x12, 9, b'x']).is_err());
    // An unknown field is passed over.
    let mut bytes = MembershipEnvelope::wrap(EngineKind::Dag, vec![1, 2]).encode();
    bytes.extend([0x20, 7]);
    assert_eq!(MembershipEnvelope::decode(&bytes).unwrap().body, vec![1, 2]);
}

#[test]
fn engine_errors_are_put_in_words() {
    let e = EngineKind::from_tag("mosaic").unwrap_err();
    assert!(e.message().contains("mosaic"));
    assert!(EnvelopeError::UnsupportedVersion(9).message().contains('9'));
}
