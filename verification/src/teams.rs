//! The data model of parsed certificates and the extraction and reduction of
//! development teams from them.
//!
//! A certificate is kept only as the ordered list of its subject's attribute
//! entries, each an attribute type identifier with the attribute's value
//! bytes: that is all the discovery logic reads of a certificate.

use vstd::prelude::*;
use crate::error::Error;
use crate::order::chars_lt;
use crate::order::lemma_chars_lt_asymmetric;
use crate::order::lemma_chars_lt_connected;
use crate::order::lemma_chars_lt_transitive;
use crate::order::str_lt;
use crate::text::decode_text;
use crate::text::utf8_text;

verus! {

/// The attribute type identifier of an organization name subject entry.
pub const NID_ORGANIZATIONNAME: i32 = 17;

/// The attribute type identifier of an organizational unit name subject entry.
pub const NID_ORGANIZATIONALUNITNAME: i32 = 18;

/// One attribute entry of a certificate subject: the attribute's numeric type
/// identifier and its raw value bytes.
pub struct SubjectEntry {
    pub nid: i32,
    pub data: Vec<u8>,
}

impl View for SubjectEntry {
    type V = (i32, Seq<u8>);

    open spec fn view(&self) -> (i32, Seq<u8>) {
        (self.nid, self.data@)
    }
}

/// A certificate subject's distinguished name: its attribute entries, in the
/// order they stand in the certificate.
pub struct SubjectName {
    pub entries: Vec<SubjectEntry>,
}

impl View for SubjectName {
    type V = Seq<(i32, Seq<u8>)>;

    open spec fn view(&self) -> Seq<(i32, Seq<u8>)> {
        self.entries@.map_values(|e: SubjectEntry| e@)
    }
}

/// A parsed certificate, reduced to what team discovery reads: its subject.
pub struct Certificate {
    pub subject: SubjectName,
}

impl View for Certificate {
    type V = Seq<(i32, Seq<u8>)>;

    open spec fn view(&self) -> Seq<(i32, Seq<u8>)> {
        self.subject@
    }
}

/// The value bytes of the first subject entry with the given attribute type,
/// the deterministic policy when an attribute is repeated.
pub open spec fn lookup_field(entries: Seq<(i32, Seq<u8>)>, nid: i32) -> Option<Seq<u8>>
    decreases entries.len(),
{
    if entries.len() == 0 {
        None
    } else if entries[0].0 == nid {
        Some(entries[0].1)
    } else {
        lookup_field(entries.drop_first(), nid)
    }
}

/// The text of the first subject entry with the given attribute type: `None`
/// when no entry matches or its bytes are not valid UTF-8.
pub open spec fn field_text(entries: Seq<(i32, Seq<u8>)>, nid: i32) -> Option<Seq<char>> {
    match lookup_field(entries, nid) {
        Some(d) => utf8_text(d),
        None => None,
    }
}

/// The exact error that extracting the given field reports when it fails.
pub open spec fn field_error(entries: Seq<(i32, Seq<u8>)>, nid: i32, e: Error) -> bool {
    match lookup_field(entries, nid) {
        Some(d) => utf8_text(d) is None && (e matches Error::FieldNotValidUtf8(b) && b@ == d),
        None => e matches Error::X509FieldMissing(m) && m == nid,
    }
}

/// Extracts a named subject field as text: the first entry of the given
/// attribute type, which must hold valid UTF-8.
pub fn get_x509_field(name: &SubjectName, nid: i32) -> (r: Result<String, Error>)
    ensures
        (r matches Ok(s) ==> field_text(name@, nid) == Some(s@)),
        r is Ok <==> field_text(name@, nid) is Some,
        (r matches Err(e) ==> field_error(name@, nid, e)),
{
    let n = name.entries.len();
    let mut i: usize = 0;
    proof {
        assert(name@.skip(0) =~= name@);
    }
    while i < n
        invariant
            i <= n,
            n == name.entries.len(),
            name@.len() == n,
            lookup_field(name@, nid) == lookup_field(name@.skip(i as int), nid),
            forall|k: int| 0 <= k < i ==> name@[k].0 != nid,
        decreases n - i,
    {
        proof {
            assert(name@[i as int] == name.entries@[i as int]@);
            assert(name@.skip(i as int)[0] == name@[i as int]);
            assert(name@.skip(i as int).drop_first() =~= name@.skip(i as int + 1));
        }
        if name.entries[i].nid == nid {
            let found = &name.entries[i];
            proof {
                assert(lookup_field(name@, nid) == Some(found.data@));
            }
            return match decode_text(found.data.as_slice()) {
                Some(s) => Ok(s),
                None => Err(Error::FieldNotValidUtf8(vstd::slice::slice_to_vec(
                    found.data.as_slice(),
                ))),
            };
        }
        i = i + 1;
    }
    proof {
        assert(name@.skip(n as int).len() == 0);
    }
    Err(Error::X509FieldMissing(nid))
}

/// A development team: the organization name and organizational unit name of a
/// signing identity's certificate subject.
///
/// The fields hold the attribute text exactly as the certificate carries it.
/// X.509 requires attribute values to be non-empty, so the fields of a team
/// read from a well-formed certificate are non-empty; the library does not
/// re-check that, as an absent attribute is the only shape of missing data the
/// error taxonomy covers.
#[derive(Debug, Eq, Ord, PartialEq, PartialOrd)]
pub struct Team {
    pub name: String,
    pub id: String,
}

impl View for Team {
    type V = (Seq<char>, Seq<char>);

    open spec fn view(&self) -> (Seq<char>, Seq<char>) {
        (self.name@, self.id@)
    }
}

/// The team named by a certificate: its organization name and organizational
/// unit texts, when both are present and decode.
pub open spec fn cert_team(cert: Seq<(i32, Seq<u8>)>) -> Option<(Seq<char>, Seq<char>)> {
    match field_text(cert, NID_ORGANIZATIONNAME) {
        Some(name) => match field_text(cert, NID_ORGANIZATIONALUNITNAME) {
            Some(id) => Some((name, id)),
            None => None,
        },
        None => None,
    }
}

/// The exact error reported for a certificate that names no team: the
/// organization name is extracted first, so its failure wins.
pub open spec fn cert_error(cert: Seq<(i32, Seq<u8>)>, e: Error) -> bool {
    if field_text(cert, NID_ORGANIZATIONNAME) is None {
        field_error(cert, NID_ORGANIZATIONNAME, e)
    } else {
        field_text(cert, NID_ORGANIZATIONALUNITNAME) is None && field_error(
            cert,
            NID_ORGANIZATIONALUNITNAME,
            e,
        )
    }
}

impl Team {
    /// Builds the team a certificate names: its subject's organization name
    /// field, then its organizational unit field; either missing or
    /// undecodable field aborts construction with that field's error.
    pub fn from_x509(cert: &Certificate) -> (r: Result<Team, Error>)
        ensures
            (r matches Ok(t) ==> cert_team(cert@) == Some(t@)),
            r is Ok <==> cert_team(cert@) is Some,
            (r matches Err(e) ==> cert_error(cert@, e)),
    {
        let name = match get_x509_field(&cert.subject, NID_ORGANIZATIONNAME) {
            Ok(name) => name,
            Err(e) => {
                return Err(e);
            },
        };
        let id = match get_x509_field(&cert.subject, NID_ORGANIZATIONALUNITNAME) {
            Ok(id) => id,
            Err(e) => {
                return Err(e);
            },
        };
        Ok(Team { name, id })
    }
}

/// Teams are ordered lexicographically, first by name, then by id.
pub open spec fn team_lt(a: (Seq<char>, Seq<char>), b: (Seq<char>, Seq<char>)) -> bool {
    chars_lt(a.0, b.0) || (a.0 == b.0 && chars_lt(a.1, b.1))
}

/// The team order is irreflexive and asymmetric.
pub proof fn lemma_team_lt_asymmetric(a: (Seq<char>, Seq<char>), b: (Seq<char>, Seq<char>))
    ensures
        team_lt(a, b) ==> !team_lt(b, a),
        team_lt(a, b) ==> a != b,
{
    lemma_chars_lt_asymmetric(a.0, b.0);
    lemma_chars_lt_asymmetric(a.1, b.1);
}

/// The team order is connected: distinct teams are ordered one way or the other.
pub proof fn lemma_team_lt_connected(a: (Seq<char>, Seq<char>), b: (Seq<char>, Seq<char>))
    ensures
        a != b ==> team_lt(a, b) || team_lt(b, a),
{
    lemma_chars_lt_connected(a.0, b.0);
    lemma_chars_lt_connected(a.1, b.1);
}

/// The team order is transitive.
pub proof fn lemma_team_lt_transitive(
    a: (Seq<char>, Seq<char>),
    b: (Seq<char>, Seq<char>),
    c: (Seq<char>, Seq<char>),
)
    ensures
        team_lt(a, b) && team_lt(b, c) ==> team_lt(a, c),
{
    lemma_chars_lt_transitive(a.0, b.0, c.0);
    lemma_chars_lt_transitive(a.1, b.1, c.1);
    lemma_chars_lt_asymmetric(a.0, b.0);
    lemma_chars_lt_asymmetric(b.0, c.0);
}

/// A team sequence sorted strictly ascending: no duplicates, deterministic order.
pub open spec fn teams_sorted(s: Seq<(Seq<char>, Seq<char>)>) -> bool {
    forall|i: int, j: int| 0 <= i < j < s.len() ==> team_lt(s[i], s[j])
}

/// The name and id texts of each team of a sequence.
pub open spec fn team_views(s: Seq<Team>) -> Seq<(Seq<char>, Seq<char>)> {
    s.map_values(|t: Team| t@)
}

/// Compares two teams in the order teams are sorted by.
fn team_lt_exec(a: &Team, b: &Team) -> (r: bool)
    ensures
        r == team_lt(a@, b@),
{
    proof {
        lemma_chars_lt_connected(a.name@, b.name@);
        lemma_chars_lt_asymmetric(a.name@, b.name@);
        lemma_chars_lt_asymmetric(b.name@, a.name@);
    }
    if str_lt(a.name.as_str(), b.name.as_str()) {
        true
    } else if str_lt(b.name.as_str(), a.name.as_str()) {
        false
    } else {
        str_lt(a.id.as_str(), b.id.as_str())
    }
}

/// Tests whether two teams have the same name and id texts.
fn team_eq_exec(a: &Team, b: &Team) -> (r: bool)
    ensures
        r == (a@ == b@),
{
    proof {
        lemma_chars_lt_connected(a.name@, b.name@);
        lemma_chars_lt_asymmetric(a.name@, b.name@);
        lemma_chars_lt_connected(a.id@, b.id@);
        lemma_chars_lt_asymmetric(a.id@, b.id@);
    }
    if str_lt(a.name.as_str(), b.name.as_str()) {
        return false;
    }
    if str_lt(b.name.as_str(), a.name.as_str()) {
        return false;
    }
    if str_lt(a.id.as_str(), b.id.as_str()) {
        return false;
    }
    if str_lt(b.id.as_str(), a.id.as_str()) {
        return false;
    }
    true
}

/// Inserts a team into a sorted team sequence, keeping it sorted and dropping
/// the team when an equal one is already present.
fn insert_team(teams: &mut Vec<Team>, t: Team)
    requires
        teams_sorted(team_views(old(teams)@)),
    ensures
        teams_sorted(team_views(final(teams)@)),
        forall|x: (Seq<char>, Seq<char>)|
            team_views(final(teams)@).contains(x) <==> team_views(old(teams)@).contains(x) || x
                == t@,
{
    let ghost ovs = team_views(old(teams)@);
    proof {
        assert(ovs.len() == old(teams)@.len());
    }
    let n = teams.len();
    let mut i: usize = 0;
    while i < n
        invariant_except_break
            i <= n,
            n == teams.len(),
            ovs.len() == n,
            ovs == team_views(old(teams)@),
            teams@ == old(teams)@,
            forall|k: int| 0 <= k < i ==> team_lt(ovs[k], t@),
        ensures
            i <= n,
            n == teams.len(),
            ovs.len() == n,
            teams@ == old(teams)@,
            forall|k: int| 0 <= k < i ==> team_lt(ovs[k], t@),
            i < n ==> !team_lt(ovs[i as int], t@),
        decreases n - i,
    {
        proof {
            assert(ovs[i as int] == teams@[i as int]@);
        }
        if !team_lt_exec(&teams[i], &t) {
            break ;
        }
        i = i + 1;
    }
    if i < n {
        proof {
            assert(ovs[i as int] == teams@[i as int]@);
        }
        if team_eq_exec(&teams[i], &t) {
            proof {
                assert(ovs.contains(t@)) by {
                    assert(ovs[i as int] == t@);
                }
            }
            return ;
        }
        proof {
            lemma_team_lt_connected(ovs[i as int], t@);
        }
    }
    teams.insert(i, t);
    proof {
        let nvs = team_views(teams@);
        assert(nvs.len() == ovs.len() + 1);
        assert forall|k: int| 0 <= k < nvs.len() implies nvs[k] == (if k < i {
            ovs[k]
        } else if k == i {
            t@
        } else {
            ovs[k - 1]
        }) by {
            assert(nvs[k] == teams@[k]@);
            if k < i {
                assert(teams@[k] == old(teams)@[k]);
            } else if k > i {
                assert(teams@[k] == old(teams)@[k - 1]);
            }
        }
        assert forall|p: int, q: int| 0 <= p < q < nvs.len() implies team_lt(nvs[p], nvs[q]) by {
            if q < i {
            } else if p >= i + 1 {
            } else if q == i {
                assert(team_lt(ovs[p], t@));
            } else if p == i {
                // t precedes every old element from position i on
                if i < n {
                    if q == i + 1 {
                        assert(team_lt(t@, ovs[i as int]));
                    } else {
                        lemma_team_lt_transitive(t@, ovs[i as int], ovs[q - 1]);
                    }
                }
            } else {
                // p < i < q: order through t
                if q == i + 1 {
                    assert(team_lt(t@, ovs[i as int]));
                } else {
                    lemma_team_lt_transitive(t@, ovs[i as int], ovs[q - 1]);
                }
                lemma_team_lt_transitive(ovs[p], t@, ovs[q - 1]);
            }
        }
        assert forall|x: (Seq<char>, Seq<char>)| nvs.contains(x) <==> ovs.contains(x) || x
            == t@ by {
            if nvs.contains(x) {
                let k = choose|k: int| 0 <= k < nvs.len() && nvs[k] == x;
                if k < i {
                    assert(ovs[k] == x);
                } else if k > i {
                    assert(ovs[k - 1] == x);
                }
            }
            if ovs.contains(x) {
                let k = choose|k: int| 0 <= k < ovs.len() && ovs[k] == x;
                if k < i {
                    assert(nvs[k] == x);
                } else {
                    assert(nvs[k + 1] == x);
                }
            }
            if x == t@ {
                assert(nvs[i as int] == x);
            }
        }
    }
}

/// The subject entry data of each certificate of a sequence.
pub open spec fn cert_views(s: Seq<Certificate>) -> Seq<Seq<(i32, Seq<u8>)>> {
    s.map_values(|c: Certificate| c@)
}

/// A successful reduction: every certificate names a team, and the output is
/// exactly the distinct teams named, sorted ascending.
pub open spec fn reduction_ok(
    certs: Seq<Seq<(i32, Seq<u8>)>>,
    out: Seq<(Seq<char>, Seq<char>)>,
) -> bool {
    &&& forall|j: int| 0 <= j < certs.len() ==> cert_team(#[trigger] certs[j]) is Some
    &&& teams_sorted(out)
    &&& forall|x: (Seq<char>, Seq<char>)|
        out.contains(x) <==> exists|j: int| 0 <= j < certs.len() && cert_team(#[trigger] certs[j])
            == Some(x)
}

/// A failed reduction: the error belongs to the first certificate that names
/// no team, every certificate before it naming one.
pub open spec fn reduction_err(certs: Seq<Seq<(i32, Seq<u8>)>>, e: Error) -> bool {
    exists|j: int|
        0 <= j < certs.len() && cert_team(#[trigger] certs[j]) is None && (forall|k: int|
            0 <= k < j ==> cert_team(#[trigger] certs[k]) is Some) && cert_error(certs[j], e)
}

/// Reduces parsed certificates to the sorted set of distinct teams they name.
/// All-or-nothing: one certificate that names no team fails the whole call
/// with that certificate's error.
pub fn teams_from_certs(certs: &Vec<Certificate>) -> (r: Result<Vec<Team>, Error>)
    ensures
        (r matches Ok(ts) ==> reduction_ok(cert_views(certs@), team_views(ts@))),
        r is Ok <==> (forall|j: int|
            0 <= j < certs@.len() ==> cert_team(#[trigger] cert_views(certs@)[j]) is Some),
        (r matches Err(e) ==> reduction_err(cert_views(certs@), e)),
{
    let ghost cvs = cert_views(certs@);
    proof {
        assert(cvs.len() == certs@.len());
    }
    let n = certs.len();
    let mut out: Vec<Team> = Vec::new();
    let mut i: usize = 0;
    while i < n
        invariant
            i <= n,
            n == certs.len(),
            cvs.len() == n,
            cvs == cert_views(certs@),
            forall|j: int| 0 <= j < i ==> cert_team(#[trigger] cvs[j]) is Some,
            teams_sorted(team_views(out@)),
            forall|x: (Seq<char>, Seq<char>)|
                team_views(out@).contains(x) <==> exists|j: int|
                    0 <= j < i && cert_team(#[trigger] cvs[j]) == Some(x),
        decreases n - i,
    {
        proof {
            assert(cvs[i as int] == certs@[i as int]@);
        }
        match Team::from_x509(&certs[i]) {
            Ok(t) => {
                let ghost before = team_views(out@);
                insert_team(&mut out, t);
                proof {
                    assert forall|x: (Seq<char>, Seq<char>)|
                        team_views(out@).contains(x) <==> exists|j: int|
                            0 <= j < i + 1 && cert_team(#[trigger] cvs[j]) == Some(x) by {
                        if team_views(out@).contains(x) {
                            if x == t@ {
                                assert(cert_team(cvs[i as int]) == Some(x));
                            } else {
                                assert(before.contains(x));
                            }
                        }
                        if exists|j: int| 0 <= j < i + 1 && cert_team(#[trigger] cvs[j]) == Some(
                            x,
                        ) {
                            let j = choose|j: int|
                                0 <= j < i + 1 && cert_team(#[trigger] cvs[j]) == Some(x);
                            if j < i {
                                assert(before.contains(x));
                            } else {
                                assert(x == t@);
                            }
                        }
                    }
                }
            },
            Err(e) => {
                proof {
                    assert(cert_team(cvs[i as int]) is None && cert_error(cvs[i as int], e));
                }
                return Err(e);
            },
        }
        i = i + 1;
    }
    Ok(out)
}

/// Law: a strictly sorted team sequence holds no duplicate teams, so a
/// successful reduction never returns the same (name, id) pair twice.
pub proof fn lemma_sorted_teams_distinct(s: Seq<(Seq<char>, Seq<char>)>)
    requires
        teams_sorted(s),
    ensures
        forall|i: int, j: int| 0 <= i < j < s.len() ==> s[i] != s[j],
{
    assert forall|i: int, j: int| 0 <= i < j < s.len() implies s[i] != s[j] by {
        lemma_team_lt_asymmetric(s[i], s[j]);
    }
}

/// Law: a strictly sorted team sequence is determined by the set of teams it
/// holds. With `reduction_ok`, this makes the reduction's output canonical:
/// any two outputs for the same certificates are identical, so running the
/// discovery twice on the same buffer yields identical ordered output.
pub proof fn lemma_sorted_teams_canonical(
    a: Seq<(Seq<char>, Seq<char>)>,
    b: Seq<(Seq<char>, Seq<char>)>,
)
    requires
        teams_sorted(a),
        teams_sorted(b),
        forall|x: (Seq<char>, Seq<char>)| a.contains(x) <==> b.contains(x),
    ensures
        a == b,
    decreases a.len(),
{
    if a.len() == 0 {
        if b.len() > 0 {
            assert(b.contains(b[0]));
            assert(a.contains(b[0]));
        }
        assert(a =~= b);
    } else {
        assert(a.contains(a[0]));
        assert(b.contains(a[0]));
        let j = choose|j: int| 0 <= j < b.len() && b[j] == a[0];
        assert(b.contains(b[0]));
        assert(a.contains(b[0]));
        let i = choose|i: int| 0 <= i < a.len() && a[i] == b[0];
        if j != 0 {
            assert(team_lt(b[0], a[0]));
            if i != 0 {
                assert(team_lt(a[0], b[0]));
            }
            lemma_team_lt_asymmetric(b[0], a[0]);
            lemma_team_lt_asymmetric(a[0], b[0]);
            assert(false);
        }
        assert(a[0] == b[0]);
        let at = a.drop_first();
        let bt = b.drop_first();
        assert(at.len() == a.len() - 1);
        assert(bt.len() == b.len() - 1);
        assert forall|p: int, q: int| 0 <= p < q < at.len() implies team_lt(at[p], at[q]) by {
            assert(at[p] == a[p + 1]);
            assert(at[q] == a[q + 1]);
        }
        assert forall|p: int, q: int| 0 <= p < q < bt.len() implies team_lt(bt[p], bt[q]) by {
            assert(bt[p] == b[p + 1]);
            assert(bt[q] == b[q + 1]);
        }
        assert forall|x: (Seq<char>, Seq<char>)| at.contains(x) <==> bt.contains(x) by {
            if at.contains(x) {
                let k = choose|k: int| 0 <= k < at.len() && at[k] == x;
                assert(at[k] == a[k + 1]);
                assert(team_lt(a[0], x));
                lemma_team_lt_asymmetric(a[0], x);
                assert(a.contains(x)) by {
                    assert(a[k + 1] == x);
                }
                assert(b.contains(x));
                let m = choose|m: int| 0 <= m < b.len() && b[m] == x;
                assert(m != 0);
                assert(bt[m - 1] == x);
                assert(bt.contains(x));
            }
            if bt.contains(x) {
                let k = choose|k: int| 0 <= k < bt.len() && bt[k] == x;
                assert(bt[k] == b[k + 1]);
                assert(team_lt(b[0], x));
                lemma_team_lt_asymmetric(b[0], x);
                assert(b.contains(x)) by {
                    assert(b[k + 1] == x);
                }
                assert(a.contains(x));
                let m = choose|m: int| 0 <= m < a.len() && a[m] == x;
                assert(m != 0);
                assert(at[m - 1] == x);
                assert(at.contains(x));
            }
        }
        lemma_sorted_teams_canonical(at, bt);
        assert forall|k: int| 0 <= k < a.len() implies a[k] == b[k] by {
            if k > 0 {
                assert(a[k] == at[k - 1]);
                assert(b[k] == bt[k - 1]);
            }
        }
        assert(a =~= b);
    }
}

} // verus!

