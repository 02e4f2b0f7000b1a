//! The PEM/X.509 boundary: parsing a raw credential buffer into the library's
//! certificate model, and the discovery pipeline built on it.

use vstd::prelude::*;
use crate::error::Error;
use crate::teams::Certificate;
use crate::teams::SubjectEntry;
use crate::teams::SubjectName;
use crate::teams::Team;
use crate::teams::cert_team;
use crate::teams::cert_views;
use crate::teams::reduction_err;
use crate::teams::reduction_ok;
use crate::teams::team_views;
use crate::teams::teams_from_certs;
use crate::teams::lemma_sorted_teams_canonical;

verus! {

/// What parsing a byte buffer as a stack of PEM certificates yields: the
/// subject entry data of each certificate, in order, or `None` when the buffer
/// cannot be parsed. This names the outcome of openssl's parser, which depends
/// on the buffer alone.
pub uninterp spec fn pem_cert_data(pem: Seq<u8>) -> Option<Seq<Seq<(i32, Seq<u8>)>>>;

/// Relies on openssl's `X509::stack_from_pem` to parse the buffer as a stack
/// of PEM certificates — a buffer without a PEM begin line, the empty buffer
/// included, parses as the empty stack — and on `X509Ref::subject_name`,
/// `X509NameRef::entries`, `X509NameEntryRef::object` and `data`,
/// `Asn1ObjectRef::nid` and `Asn1StringRef::as_slice` to read each subject
/// entry's attribute type identifier and value bytes, in certificate order.
/// openssl asserts that the buffer's length fits in a C `int` before reading
/// it, so the bound is required rather than risking that panic.
#[verifier::external_body]
fn parse_pem_certs(pem: &[u8]) -> (r: Result<Vec<Certificate>, openssl::error::ErrorStack>)
    requires
        pem@.len() <= i32::MAX,
    ensures
        (r matches Ok(certs) ==> pem_cert_data(pem@) == Some(cert_views(certs@))),
        r is Ok <==> pem_cert_data(pem@) is Some,
        (r matches Ok(certs) ==> (pem@.len() == 0 ==> certs@.len() == 0)),
        r is Err ==> pem@.len() != 0,
{
    let stack = openssl::x509::X509::stack_from_pem(pem)?;
    Ok(stack.iter().map(|cert| Certificate {
        subject: SubjectName {
            entries: cert.subject_name().entries().map(|e| SubjectEntry {
                nid: e.object().nid().as_raw(),
                data: e.data().as_slice().to_vec(),
            }).collect(),
        },
    }).collect())
}

/// What a discovery result says of the buffer it was computed from: success is
/// owed exactly when the buffer parses and every certificate names a team; the
/// output is then the distinct teams named, sorted ascending; an unparseable
/// buffer reports the parse failure, and a certificate that names no team
/// reports the first such certificate's error.
pub open spec fn discovery_post(pem: Seq<u8>, r: Result<Vec<Team>, Error>) -> bool {
    &&& (r matches Ok(ts) ==> (pem_cert_data(pem) matches Some(cvs) && reduction_ok(
        cvs,
        team_views(ts@),
    )))
    &&& (r is Ok <==> (pem_cert_data(pem) matches Some(cvs) && (forall|j: int|
        0 <= j < cvs.len() ==> cert_team(#[trigger] cvs[j]) is Some)))
    &&& (r matches Err(e) ==> (match pem_cert_data(pem) {
        Some(cvs) => reduction_err(cvs, e),
        None => e is X509ParseFailed,
    }))
}

/// Parses a raw credential buffer and reduces it to the sorted sequence of
/// distinct teams its certificates name. A buffer that parses to zero
/// certificates — the empty buffer included — succeeds with the empty
/// sequence; only an unparseable buffer fails with `X509ParseFailed`. The
/// buffer must fit in a C `int`, the limit openssl's reader asserts.
pub fn find_development_teams_in_pem(pem: &[u8]) -> (r: Result<Vec<Team>, Error>)
    requires
        pem@.len() <= i32::MAX,
    ensures
        discovery_post(pem@, r),
        pem@.len() == 0 ==> (r matches Ok(ts) && ts@.len() == 0),
{
    match parse_pem_certs(pem) {
        Ok(certs) => {
            let r = teams_from_certs(&certs);
            proof {
                if pem@.len() == 0 {
                    assert(cert_views(certs@).len() == 0);
                    if r is Ok {
                        let ts = r->Ok_0;
                        let tvs = team_views(ts@);
                        if tvs.len() > 0 {
                            assert(tvs.contains(tvs[0]));
                        }
                        assert(tvs.len() == ts@.len());
                    }
                }
            }
            r
        },
        Err(es) => Err(Error::X509ParseFailed(es)),
    }
}

/// The discovery pipeline, given the outcome of the credential-store query:
/// the query's standard-output bytes, or its failure's description. A failed
/// query becomes `SecurityCommandFailed` with that description; a successful
/// query's bytes are parsed and reduced as `find_development_teams_in_pem`,
/// and must fit in a C `int`, the limit openssl's reader asserts.
pub fn find_development_teams_with(query: Result<Vec<u8>, String>) -> (r: Result<Vec<Team>, Error>)
    requires
        (query matches Ok(pem) ==> pem@.len() <= i32::MAX),
    ensures
        (query matches Ok(pem) ==> discovery_post(pem@, r)),
        (query matches Ok(pem) && pem@.len() == 0 ==> (r matches Ok(ts) && ts@.len() == 0)),
        (query matches Err(m) ==> (r matches Err(e) && e matches Error::SecurityCommandFailed(mm)
            && mm == m)),
{
    match query {
        Ok(pem) => find_development_teams_in_pem(pem.as_slice()),
        Err(m) => Err(Error::SecurityCommandFailed(m)),
    }
}

/// Law: discovery is a function of the input bytes — it succeeds or fails the
/// same way on the same buffer, and two successful runs return identical
/// ordered team lists.
pub proof fn lemma_discovery_idempotent(
    pem: Seq<u8>,
    r1: Result<Vec<Team>, Error>,
    r2: Result<Vec<Team>, Error>,
)
    requires
        discovery_post(pem, r1),
        discovery_post(pem, r2),
    ensures
        r1 is Ok <==> r2 is Ok,
        r1 is Ok && r2 is Ok ==> team_views(r1->Ok_0@) == team_views(r2->Ok_0@),
{
    if r1 is Ok && r2 is Ok {
        let a = r1->Ok_0;
        let b = r2->Ok_0;
        let cvs = pem_cert_data(pem)->Some_0;
        assert(reduction_ok(cvs, team_views(a@)));
        assert(reduction_ok(cvs, team_views(b@)));
        assert forall|x: (Seq<char>, Seq<char>)|
            team_views(a@).contains(x) <==> team_views(b@).contains(x) by {}
        lemma_sorted_teams_canonical(team_views(a@), team_views(b@));
    }
}

} // verus!
