//! Typed, displayable playlist identifiers parsed from reference URIs.

use vstd::prelude::*;
use crate::uri::{seg_views, segments, split_colons};

verus! {

/// Mathematical content of a [`NamedId`]: the three segments the parser
/// reads out of a playlist-reference URI.
pub struct NamedIdView {
    pub username: Seq<char>,
    pub kind: Seq<char>,
    pub id: Seq<char>,
}

/// A parsed playlist reference: the user that owns the list, the kind of the
/// referenced item, and its identifier.
#[derive(Debug, Clone)]
pub struct NamedId {
    pub username: String,
    pub kind: String,
    pub id: String,
}

impl View for NamedId {
    type V = NamedIdView;

    open spec fn view(&self) -> NamedIdView {
        NamedIdView { username: self.username@, kind: self.kind@, id: self.id@ }
    }
}

/// The fatal error of the builder: a playlist-reference URI that does not
/// carry the segments a reference requires.
#[derive(Debug, Clone, Copy, PartialEq, Eq, Structural)]
pub struct IdentifierParseError;

impl IdentifierParseError {
    /// A human-readable account of the error.
    pub fn message(&self) -> (r: String)
        ensures
            r@ == "malformed playlist reference URI"@,
    {
        "malformed playlist reference URI".to_owned()
    }
}

/// A playlist-reference URI parses exactly when it has the five segments
/// `spotify:user:{username}:{kind}:{id}` at minimum.
pub open spec fn id_parses(u: Seq<char>) -> bool {
    segments(u).len() >= 5
}

/// What the parser returns on a URI that parses.
pub open spec fn parsed_id(u: Seq<char>) -> NamedIdView {
    NamedIdView { username: segments(u)[2], kind: segments(u)[3], id: segments(u)[4] }
}

impl NamedId {
    /// Parses a playlist-reference URI, rejecting any URI that lacks the
    /// minimum number of colon-delimited segments.
    pub fn from_uri(uri: &str) -> (r: Result<NamedId, IdentifierParseError>)
        ensures
            r is Ok <==> id_parses(uri@),
            r is Ok ==> r->Ok_0@ == parsed_id(uri@),
    {
        let segs = split_colons(uri);
        proof {
            assert(seg_views(segs@).len() == segs@.len());
        }
        if segs.len() < 5 {
            Err(IdentifierParseError)
        } else {
            let parsed = NamedId {
                username: segs[2].clone(),
                kind: segs[3].clone(),
                id: segs[4].clone(),
            };
            proof {
                assert(seg_views(segs@)[2] == segs@[2]@);
                assert(seg_views(segs@)[3] == segs@[3]@);
                assert(seg_views(segs@)[4] == segs@[4]@);
            }
            Ok(parsed)
        }
    }

    /// The canonical URI text of this identifier.
    pub fn to_uri(&self) -> (r: String)
        ensures
            r@ == uri_of(self@),
    {
        let mut r = String::from_str("spotify:user:");
        r.append(self.username.as_str());
        r.append(":");
        r.append(self.kind.as_str());
        r.append(":");
        r.append(self.id.as_str());
        r
    }
}

/// The canonical URI text of an identifier.
pub open spec fn uri_of(v: NamedIdView) -> Seq<char> {
    "spotify:user:"@ + v.username + ":"@ + v.kind + ":"@ + v.id
}

/// Structural equality of two identifiers.
pub fn id_eq(a: &NamedId, b: &NamedId) -> (r: bool)
    ensures
        r == (a@ == b@),
{
    let r = crate::uri::str_eq(a.username.as_str(), b.username.as_str()) && crate::uri::str_eq(
        a.kind.as_str(),
        b.kind.as_str(),
    ) && crate::uri::str_eq(a.id.as_str(), b.id.as_str());
    r
}

} // verus!
