//! Dotted domain-name strings and their zone labels.
//!
//! A domain string splits on `'.'` into labels; the zones are those labels
//! in top-down order, most significant first ("com" before "example"), the
//! order the zone tree is indexed in. Name comparison throughout the crate
//! is case-sensitive and exact: a caller that wants conventional
//! case-insensitive DNS matching must fold case before parsing.

use vstd::prelude::*;

verus! {

/// Why a string failed to parse as a domain.
#[derive(Clone, Copy, Debug, PartialEq, Eq, Structural)]
pub enum DomainParseError {
    /// The input was the empty string.
    EmptyString,
    /// The input had exactly one label: a bare token is not a domain here.
    InvalidFormat,
}

/// The views of a vector of strings.
pub open spec fn strings_view(v: Vec<String>) -> Seq<Seq<char>> {
    Seq::new(v@.len(), |i: int| v@[i]@)
}

/// The index of the first `'.'` in `s`, or `s.len()` when there is none.
pub open spec fn spec_first_dot(s: Seq<char>) -> int
    decreases s.len(),
{
    if s.len() == 0 {
        0
    } else if s[0] == '.' {
        0
    } else {
        1 + spec_first_dot(s.drop_first())
    }
}

/// The segments of `s` split on `'.'`, left to right. The empty string has
/// one empty segment, as `str::split` gives.
pub open spec fn spec_split(s: Seq<char>) -> Seq<Seq<char>>
    decreases s.len(),
{
    let i = spec_first_dot(s);
    if i < 0 || i >= s.len() {
        seq![s]
    } else {
        seq![s.take(i)] + spec_split(s.skip(i + 1))
    }
}

/// The zones of a domain string: its segments in reverse, most significant
/// label first.
pub open spec fn spec_zones(s: Seq<char>) -> Seq<Seq<char>> {
    let segs = spec_split(s);
    Seq::new(segs.len(), |i: int| segs[segs.len() - 1 - i])
}

/// A position with a dot, before which there is none, is the first dot.
proof fn lemma_first_dot_at(s: Seq<char>, k: int)
    requires
        0 <= k <= s.len(),
        forall|j: int| 0 <= j < k ==> s[j] != '.',
        k < s.len() ==> s[k] == '.',
        k == s.len() || s[k] == '.',
    ensures
        k < s.len() ==> spec_first_dot(s) == k,
        k == s.len() ==> spec_first_dot(s) == s.len(),
    decreases s.len(),
{
    if s.len() != 0 && s[0] != '.' {
        assert forall|j: int| 0 <= j < k - 1 implies s.drop_first()[j] != '.' by {
            assert(s.drop_first()[j] == s[j + 1]);
        }
        if k < s.len() {
            assert(s.drop_first()[k - 1] == s[k]);
        }
        lemma_first_dot_at(s.drop_first(), k - 1);
    }
}

/// A split always has at least one segment.
pub proof fn lemma_split_nonempty(s: Seq<char>)
    ensures
        spec_split(s).len() >= 1,
{
}

/// The segments of `domain`, split on `'.'`, left to right.
fn split_segments(domain: &str) -> (r: Vec<String>)
    ensures
        strings_view(r) == spec_split(domain@),
{
    let s = domain;
    let n = s.unicode_len();
    let mut segments: Vec<String> = Vec::new();
    let mut start: usize = 0;
    let mut i: usize = 0;
    proof {
        assert(s@.skip(0) =~= s@);
        assert(strings_view(segments) + spec_split(s@) =~= spec_split(s@));
    }
    while i < n
        invariant
            n == s@.len(),
            0 <= start <= i <= n,
            forall|j: int| start <= j < i ==> s@[j] != '.',
            spec_split(s@) == strings_view(segments) + spec_split(s@.skip(start as int)),
        decreases n - i,
    {
        if s.get_char(i) == '.' {
            let seg = s.substring_char(start, i);
            let ghost old_segments = segments;
            segments.push(seg.to_owned());
            proof {
                let rest = s@.skip(start as int);
                assert forall|j: int| 0 <= j < i - start implies rest[j] != '.' by {
                    assert(rest[j] == s@[start + j]);
                }
                assert(rest[i - start] == '.');
                lemma_first_dot_at(rest, i - start);
                assert(rest.take(i - start) =~= seg@);
                assert(rest.skip(i - start + 1) =~= s@.skip(i + 1));
                assert(strings_view(segments) =~= strings_view(old_segments).push(seg@));
                assert(strings_view(old_segments) + (seq![seg@] + spec_split(s@.skip(i + 1)))
                    =~= strings_view(segments) + spec_split(s@.skip(i + 1)));
            }
            start = i + 1;
        }
        i += 1;
    }
    let seg = s.substring_char(start, n);
    let ghost old_segments = segments;
    segments.push(seg.to_owned());
    proof {
        let rest = s@.skip(start as int);
        assert forall|j: int| 0 <= j < rest.len() implies rest[j] != '.' by {
            assert(rest[j] == s@[start + j]);
        }
        lemma_first_dot_at(rest, rest.len() as int);
        assert(rest =~= seg@);
        assert(strings_view(segments) =~= strings_view(old_segments).push(seg@));
        assert(strings_view(old_segments) + seq![seg@] =~= strings_view(segments));
        assert(strings_view(segments) =~= spec_split(s@));
    }
    segments
}

/// The DNS zones of a dotted name in top-down order (i.e. TLD first).
#[verifier::loop_isolation(false)]
pub fn to_zones(domain: &str) -> (r: Vec<String>)
    ensures
        strings_view(r) == spec_zones(domain@),
{
    let segments = split_segments(domain);
    let mut zones: Vec<String> = Vec::new();
    let n = segments.len();
    let mut k: usize = 0;
    while k < n
        invariant
            n == segments@.len(),
            0 <= k <= n,
            zones@.len() == k,
            forall|i: int| 0 <= i < k ==> strings_view(zones)[i] == strings_view(segments)[n - 1
                - i],
        decreases n - k,
    {
        let item = segments[n - 1 - k].clone();
        proof {
            assert(item@ == strings_view(segments)[n - 1 - k as int]);
        }
        let ghost old_zones = zones;
        zones.push(item);
        proof {
            assert forall|i: int| 0 <= i < k + 1 implies strings_view(zones)[i] == strings_view(
                segments,
            )[n - 1 - i] by {
                if i < k {
                    assert(strings_view(zones)[i] == strings_view(old_zones)[i]);
                }
            }
        }
        k += 1;
    }
    proof {
        assert(strings_view(zones) =~= spec_zones(domain@));
    }
    zones
}

/// A parsed domain: the original dotted string and its zone labels in
/// top-down order.
pub struct Domain {
    pub name: String,
    pub zones: Vec<String>,
}

impl Domain {
    /// Builds a domain from a dotted string without validating it.
    pub fn new(domain: &str) -> (r: Domain)
        ensures
            r.name@ == domain@,
            strings_view(r.zones) == spec_zones(domain@),
    {
        Domain { name: domain.to_owned(), zones: to_zones(domain) }
    }

    /// Parses a dotted string. The empty string is `EmptyString`; a string
    /// with exactly one label is `InvalidFormat`; anything else is a domain
    /// with at least two zones.
    pub fn parse(s: &str) -> (r: Result<Domain, DomainParseError>)
        ensures
            s@.len() == 0 ==> r == Err::<Domain, DomainParseError>(DomainParseError::EmptyString),
            s@.len() > 0 && spec_split(s@).len() == 1 ==> r == Err::<Domain, DomainParseError>(
                DomainParseError::InvalidFormat,
            ),
            spec_split(s@).len() >= 2 ==> (r matches Ok(d) && d.name@ == s@ && strings_view(
                d.zones,
            ) == spec_zones(s@) && d.zones@.len() >= 2),
    {
        if s.is_empty() {
            return Err(DomainParseError::EmptyString);
        }
        let zones = to_zones(s);
        proof {
            lemma_split_nonempty(s@);
            assert(strings_view(zones) == spec_zones(s@));
            assert(strings_view(zones).len() == zones@.len());
            assert(spec_zones(s@).len() == spec_split(s@).len());
        }
        if zones.len() == 1 {
            return Err(DomainParseError::InvalidFormat);
        }
        Ok(Domain { name: s.to_owned(), zones })
    }
}

} // verus!
