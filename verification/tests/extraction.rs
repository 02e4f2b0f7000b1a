//! Tests of subject-field extraction, team construction and reduction on
//! synthetic certificate data.

use dev_teams::Certificate;
use dev_teams::Error;
use dev_teams::SubjectEntry;
use dev_teams::SubjectName;
use dev_teams::Team;
use dev_teams::get_x509_field;
use dev_teams::teams::NID_ORGANIZATIONALUNITNAME;
use dev_teams::teams::NID_ORGANIZATIONNAME;
use dev_teams::teams::teams_from_certs;

fn entry(nid: i32, data: &[u8]) -> SubjectEntry {
    SubjectEntry { nid, data: data.to_vec() }
}

fn cert(entries: Vec<SubjectEntry>) -> Certificate {
    Certificate { subject: SubjectName { entries } }
}

fn team_cert(org: &str, ou: &str) -> Certificate {
    cert(vec![
        entry(NID_ORGANIZATIONNAME, org.as_bytes()),
        entry(NID_ORGANIZATIONALUNITNAME, ou.as_bytes()),
    ])
}

#[test]
fn field_present_is_returned() {
    let name = SubjectName { entries: vec![entry(NID_ORGANIZATIONNAME, b"Acme Corp")] };
    let got = get_x509_field(&name, NID_ORGANIZATIONNAME).unwrap();
    assert_eq!(got, "Acme Corp");
}

#[test]
fn field_lookup_takes_first_match() {
    let name = SubjectName {
        entries: vec![
            entry(NID_ORGANIZATIONNAME, b"First Org"),
            entry(NID_ORGANIZATIONNAME, b"Second Org"),
        ],
    };
    let got = get_x509_field(&name, NID_ORGANIZATIONNAME).unwrap();
    assert_eq!(got, "First Org");
}

#[test]
fn field_lookup_skips_other_attribute_types() {
    let common_name: i32 = 13;
    let name = SubjectName {
        entries: vec![
            entry(common_name, b"Apple Development: someone"),
            entry(NID_ORGANIZATIONALUNITNAME, b"ABC123"),
            entry(NID_ORGANIZATIONNAME, b"Acme Corp"),
        ],
    };
    assert_eq!(get_x509_field(&name, NID_ORGANIZATIONNAME).unwrap(), "Acme Corp");
    assert_eq!(get_x509_field(&name, NID_ORGANIZATIONALUNITNAME).unwrap(), "ABC123");
}

#[test]
fn field_absent_is_missing_error() {
    let name = SubjectName { entries: vec![entry(NID_ORGANIZATIONNAME, b"Acme Corp")] };
    let err = get_x509_field(&name, NID_ORGANIZATIONALUNITNAME).unwrap_err();
    assert!(matches!(err, Error::X509FieldMissing(NID_ORGANIZATIONALUNITNAME)));
}

#[test]
fn field_with_invalid_utf8_is_decode_error() {
    let bad = [0x41u8, 0xff, 0xfe];
    let name = SubjectName { entries: vec![entry(NID_ORGANIZATIONNAME, &bad)] };
    let err = get_x509_field(&name, NID_ORGANIZATIONNAME).unwrap_err();
    match err {
        Error::FieldNotValidUtf8(bytes) => assert_eq!(bytes, bad.to_vec()),
        other => panic!("expected FieldNotValidUtf8, got {:?}", other),
    }
}

#[test]
fn team_from_certificate_reads_both_fields() {
    let t = Team::from_x509(&team_cert("Acme Corp", "ABC123")).unwrap();
    assert_eq!(t, Team { name: "Acme Corp".to_string(), id: "ABC123".to_string() });
}

#[test]
fn team_missing_unit_fails_with_that_field() {
    let c = cert(vec![entry(NID_ORGANIZATIONNAME, b"Acme Corp")]);
    let err = Team::from_x509(&c).unwrap_err();
    assert!(matches!(err, Error::X509FieldMissing(NID_ORGANIZATIONALUNITNAME)));
}

#[test]
fn team_invalid_org_bytes_fail_with_decode_error() {
    let c = cert(vec![
        entry(NID_ORGANIZATIONNAME, &[0xc3u8, 0x28]),
        entry(NID_ORGANIZATIONALUNITNAME, b"ABC123"),
    ]);
    let err = Team::from_x509(&c).unwrap_err();
    assert!(matches!(err, Error::FieldNotValidUtf8(_)));
}

#[test]
fn reduction_deduplicates_identical_teams() {
    let certs = vec![team_cert("Acme Corp", "ABC123"), team_cert("Acme Corp", "ABC123")];
    let teams = teams_from_certs(&certs).unwrap();
    assert_eq!(teams, vec![Team { name: "Acme Corp".to_string(), id: "ABC123".to_string() }]);
}

#[test]
fn reduction_sorts_by_name_then_id() {
    let certs = vec![
        team_cert("Zeta", "A1"),
        team_cert("Acme Corp", "ZZ9"),
        team_cert("Acme Corp", "AB2"),
        team_cert("Zeta", "A1"),
    ];
    let teams = teams_from_certs(&certs).unwrap();
    let got: Vec<(String, String)> = teams.into_iter().map(|t| (t.name, t.id)).collect();
    assert_eq!(
        got,
        vec![
            ("Acme Corp".to_string(), "AB2".to_string()),
            ("Acme Corp".to_string(), "ZZ9".to_string()),
            ("Zeta".to_string(), "A1".to_string()),
        ]
    );
}

#[test]
fn one_bad_certificate_fails_the_whole_reduction() {
    let mut certs = Vec::new();
    for i in 0..9 {
        certs.push(team_cert("Acme Corp", &format!("UNIT{}", i)));
    }
    certs.push(cert(vec![entry(NID_ORGANIZATIONNAME, b"Broken Org")]));
    let err = teams_from_certs(&certs).unwrap_err();
    assert!(matches!(err, Error::X509FieldMissing(NID_ORGANIZATIONALUNITNAME)));
}

#[test]
fn reduction_of_no_certificates_is_empty() {
    let teams = teams_from_certs(&Vec::new()).unwrap();
    assert!(teams.is_empty());
}

#[test]
fn messages_render_each_variant() {
    let cmd = Error::SecurityCommandFailed("exit status 1".to_string());
    assert_eq!(cmd.message(), "Failed to call `security` command: exit status 1");
    let missing = Error::X509FieldMissing(NID_ORGANIZATIONALUNITNAME);
    assert_eq!(missing.message(), "Missing X509 field: 18");
    let negative = Error::X509FieldMissing(-7);
    assert_eq!(negative.message(), "Missing X509 field: -7");
    let utf8 = Error::FieldNotValidUtf8(vec![0xff]);
    assert_eq!(utf8.message(), "Field contained invalid UTF-8: ff");
    let utf8_run = Error::FieldNotValidUtf8(vec![0x41, 0xff, 0x0a]);
    assert_eq!(utf8_run.message(), "Field contained invalid UTF-8: 41 ff 0a");
}

#[test]
fn failed_query_becomes_security_command_error() {
    let r = dev_teams::find_development_teams_with(Err("command not found".to_string()));
    match r.unwrap_err() {
        Error::SecurityCommandFailed(m) => assert_eq!(m, "command not found"),
        other => panic!("expected SecurityCommandFailed, got {:?}", other),
    }
}
