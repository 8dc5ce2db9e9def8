//! Colon-delimited URIs: splitting into segments and marker classification.

use vstd::prelude::*;

verus! {

/// Index of the first `':'` in `s`, or `s.len()` if there is none.
pub open spec fn first_colon(s: Seq<char>) -> nat
    decreases s.len(),
{
    if s.len() == 0 {
        0
    } else if s[0] == ':' {
        0
    } else {
        1 + first_colon(s.drop_first())
    }
}

pub proof fn lemma_first_colon_bounds(s: Seq<char>)
    ensures
        first_colon(s) <= s.len(),
        forall|k: int| 0 <= k < first_colon(s) ==> s[k] != ':',
        first_colon(s) < s.len() ==> s[first_colon(s) as int] == ':',
    decreases s.len(),
{
    if s.len() == 0 {
    } else if s[0] == ':' {
    } else {
        lemma_first_colon_bounds(s.drop_first());
        assert forall|k: int| 0 <= k < first_colon(s) implies s[k] != ':' by {
            if k > 0 {
                assert(s.drop_first()[k - 1] == s[k]);
            }
        }
        if first_colon(s) < s.len() {
            assert(s.drop_first()[first_colon(s) - 1] == s[first_colon(s) as int]);
        }
    }
}

/// The position of the first colon is pinned down by its characteristic
/// properties: no colon strictly before it, and a colon (or the end of the
/// string) at it.
pub proof fn lemma_first_colon_at(s: Seq<char>, j: int)
    requires
        0 <= j <= s.len(),
        forall|k: int| 0 <= k < j ==> s[k] != ':',
        j < s.len() ==> s[j] == ':',
    ensures
        first_colon(s) == j,
{
    lemma_first_colon_bounds(s);
    if first_colon(s) < j {
        assert(s[first_colon(s) as int] == ':');
    }
    if first_colon(s) > j {
        assert(s[j] != ':');
    }
}

/// The colon-separated segments of `s`, in order.  A string with no colon is
/// a single segment; every colon separates two (possibly empty) segments.
pub open spec fn segments(s: Seq<char>) -> Seq<Seq<char>>
    decreases s.len(),
{
    let i = first_colon(s) as int;
    if i >= s.len() {
        seq![s]
    } else {
        seq![s.subrange(0, i)] + segments(s.subrange(i + 1, s.len() as int))
    }
}

/// The views of a vector of owned segments.
pub open spec fn seg_views(r: Seq<String>) -> Seq<Seq<char>> {
    r.map_values(|t: String| t@)
}

/// Splits `s` at every `':'`, keeping empty segments, exactly as
/// [`segments`] describes.
pub fn split_colons(s: &str) -> (r: Vec<String>)
    ensures
        seg_views(r@) == segments(s@),
{
    let n = s.unicode_len();
    let mut r: Vec<String> = Vec::new();
    let mut start: usize = 0;
    let mut i: usize = 0;
    proof {
        assert(s@.subrange(0, n as int) =~= s@);
        assert(seg_views(r@) + segments(s@) =~= segments(s@));
    }
    while i < n
        invariant
            start <= i <= n,
            n == s@.len(),
            forall|k: int| start <= k < i ==> s@[k] != ':',
            segments(s@) =~= seg_views(r@) + segments(s@.subrange(start as int, n as int)),
        decreases n - i,
    {
        let c = s.get_char(i);
        if c == ':' {
            let piece = s.substring_char(start, i);
            r.push(piece.to_owned());
            proof {
                let tail = s@.subrange(start as int, n as int);
                assert forall|k: int| 0 <= k < i - start implies tail[k] != ':' by {
                    assert(tail[k] == s@[start + k]);
                }
                assert(tail[i - start] == s@[i as int]);
                lemma_first_colon_at(tail, i - start);
                assert(tail.subrange(0, i - start) =~= s@.subrange(start as int, i as int));
                assert(tail.subrange(i - start + 1, tail.len() as int) =~= s@.subrange(
                    i + 1,
                    n as int,
                ));
                assert(segments(tail) == seq![s@.subrange(start as int, i as int)] + segments(
                    s@.subrange(i + 1, n as int),
                ));
                assert(segments(s@) =~= seg_views(r@) + segments(
                    s@.subrange(i + 1, n as int),
                ));
            }
            start = i + 1;
        }
        i += 1;
    }
    let piece = s.substring_char(start, n);
    r.push(piece.to_owned());
    proof {
        let tail = s@.subrange(start as int, n as int);
        assert forall|k: int| 0 <= k < tail.len() implies tail[k] != ':' by {
            assert(tail[k] == s@[start + k]);
        }
        lemma_first_colon_at(tail, tail.len() as int);
        assert(segments(tail) == seq![tail]);
        assert(segments(s@) =~= seg_views(r@));
    }
    r
}

/// Character-for-character equality of two string slices.
pub fn str_eq(a: &str, b: &str) -> (r: bool)
    ensures
        r == (a@ == b@),
{
    let na = a.unicode_len();
    let nb = b.unicode_len();
    if na != nb {
        return false;
    }
    let mut i: usize = 0;
    while i < na
        invariant
            i <= na,
            na == a@.len(),
            nb == b@.len(),
            na == nb,
            forall|k: int| 0 <= k < i ==> a@[k] == b@[k],
        decreases na - i,
    {
        if a.get_char(i) != b.get_char(i) {
            return false;
        }
        i += 1;
    }
    proof {
        assert(a@ =~= b@);
    }
    true
}

/// A `start-group` marker: the second segment is the literal `start-group`.
pub open spec fn is_start_group(u: Seq<char>) -> bool {
    segments(u).len() >= 2 && segments(u)[1] == "start-group"@
}

/// An `end-group` marker: the second segment is the literal `end-group`.
pub open spec fn is_end_group(u: Seq<char>) -> bool {
    segments(u).len() >= 2 && segments(u)[1] == "end-group"@
}

/// Anything that is neither marker denotes a playlist reference.
pub open spec fn is_playlist_ref(u: Seq<char>) -> bool {
    !is_start_group(u) && !is_end_group(u)
}

/// The display name a `start-group` marker carries in its fourth segment.
pub open spec fn group_name(u: Seq<char>) -> Seq<char> {
    segments(u)[3]
}

/// A marker is well-formed when it carries all the segments read off it: a
/// `start-group` its identifier and display name, an `end-group` its
/// identifier.
pub open spec fn marker_wf(u: Seq<char>) -> bool {
    &&& is_start_group(u) ==> segments(u).len() >= 4
    &&& is_end_group(u) ==> segments(u).len() >= 3
}

} // verus!
