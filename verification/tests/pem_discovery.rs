//! Tests of the discovery pipeline on real PEM buffers, built with openssl.

use dev_teams::Error;
use dev_teams::Team;
use dev_teams::find_development_teams_in_pem;
use dev_teams::find_development_teams_with;
use openssl::asn1::Asn1Time;
use openssl::ec::EcGroup;
use openssl::ec::EcKey;
use openssl::hash::MessageDigest;
use openssl::nid::Nid;
use openssl::pkey::PKey;
use openssl::x509::X509;
use openssl::x509::X509NameBuilder;

/// Builds a self-signed certificate in PEM form whose subject carries the
/// given organization and organizational unit, when present.
fn cert_pem(org: Option<&str>, ou: Option<&str>) -> Vec<u8> {
    let group = EcGroup::from_curve_name(Nid::X9_62_PRIME256V1).unwrap();
    let key = PKey::from_ec_key(EcKey::generate(&group).unwrap()).unwrap();
    let mut name = X509NameBuilder::new().unwrap();
    if let Some(o) = org {
        name.append_entry_by_nid(Nid::ORGANIZATIONNAME, o).unwrap();
    }
    if let Some(u) = ou {
        name.append_entry_by_nid(Nid::ORGANIZATIONALUNITNAME, u).unwrap();
    }
    let name = name.build();
    let mut builder = X509::builder().unwrap();
    builder.set_version(2).unwrap();
    builder.set_subject_name(&name).unwrap();
    builder.set_issuer_name(&name).unwrap();
    builder.set_pubkey(&key).unwrap();
    builder.set_not_before(&Asn1Time::days_from_now(0).unwrap()).unwrap();
    builder.set_not_after(&Asn1Time::days_from_now(1).unwrap()).unwrap();
    builder.sign(&key, MessageDigest::sha256()).unwrap();
    builder.build().to_pem().unwrap()
}

fn team(name: &str, id: &str) -> Team {
    Team { name: name.to_string(), id: id.to_string() }
}

#[test]
fn two_identical_certs_collapse_to_one_team() {
    let mut pem = cert_pem(Some("Acme Corp"), Some("ABC123"));
    pem.extend_from_slice(&cert_pem(Some("Acme Corp"), Some("ABC123")));
    let teams = find_development_teams_in_pem(&pem).unwrap();
    assert_eq!(teams, vec![team("Acme Corp", "ABC123")]);
}

#[test]
fn empty_buffer_succeeds_with_no_teams() {
    let teams = find_development_teams_in_pem(&[]).unwrap();
    assert!(teams.is_empty());
}

#[test]
fn successful_query_with_empty_output_gives_no_teams() {
    let teams = find_development_teams_with(Ok(Vec::new())).unwrap();
    assert!(teams.is_empty());
}

#[test]
fn malformed_pem_block_is_a_parse_failure() {
    let pem = b"-----BEGIN CERTIFICATE-----\nnot base64 at all!!\n-----END CERTIFICATE-----\n";
    let err = find_development_teams_in_pem(pem).unwrap_err();
    assert!(matches!(err, Error::X509ParseFailed(_)));
}

#[test]
fn distinct_teams_come_out_sorted() {
    let mut pem = cert_pem(Some("Zeta Systems"), Some("Z1")).to_vec();
    pem.extend_from_slice(&cert_pem(Some("Acme Corp"), Some("ZZ9")));
    pem.extend_from_slice(&cert_pem(Some("Acme Corp"), Some("AB2")));
    let teams = find_development_teams_in_pem(&pem).unwrap();
    assert_eq!(
        teams,
        vec![team("Acme Corp", "AB2"), team("Acme Corp", "ZZ9"), team("Zeta Systems", "Z1")]
    );
}

#[test]
fn unicode_names_sort_by_scalar_value() {
    let mut pem = cert_pem(Some("Ärger GmbH"), Some("U1"));
    pem.extend_from_slice(&cert_pem(Some("Zeta"), Some("U2")));
    let teams = find_development_teams_in_pem(&pem).unwrap();
    assert_eq!(teams, vec![team("Zeta", "U2"), team("Ärger GmbH", "U1")]);
}

#[test]
fn missing_unit_fails_even_among_wellformed_certs() {
    let mut pem = cert_pem(Some("Acme Corp"), Some("ABC123"));
    pem.extend_from_slice(&cert_pem(Some("No Unit Org"), None));
    pem.extend_from_slice(&cert_pem(Some("Acme Corp"), Some("XYZ789")));
    let err = find_development_teams_in_pem(&pem).unwrap_err();
    match err {
        Error::X509FieldMissing(nid) => assert_eq!(nid, Nid::ORGANIZATIONALUNITNAME.as_raw()),
        other => panic!("expected X509FieldMissing, got {:?}", other),
    }
}

#[test]
fn missing_organization_is_reported_first() {
    let pem = cert_pem(None, Some("ABC123"));
    let err = find_development_teams_in_pem(&pem).unwrap_err();
    match err {
        Error::X509FieldMissing(nid) => assert_eq!(nid, Nid::ORGANIZATIONNAME.as_raw()),
        other => panic!("expected X509FieldMissing, got {:?}", other),
    }
}

#[test]
fn discovery_twice_on_same_buffer_is_identical() {
    let mut pem = cert_pem(Some("Beta LLC"), Some("B7")).to_vec();
    pem.extend_from_slice(&cert_pem(Some("Acme Corp"), Some("ABC123")));
    pem.extend_from_slice(&cert_pem(Some("Beta LLC"), Some("B7")));
    let first = find_development_teams_in_pem(&pem).unwrap();
    let second = find_development_teams_in_pem(&pem).unwrap();
    assert_eq!(first, second);
    assert_eq!(first, vec![team("Acme Corp", "ABC123"), team("Beta LLC", "B7")]);
}
