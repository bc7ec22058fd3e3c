//! Semantic versions `major.minor.patch`, ordered lexicographically.
use vstd::prelude::*;
use std::str::FromStr;

verus! {

/// A semantic version.
#[derive(Clone, Copy, Debug, PartialEq, Eq, Structural, Hash)]
pub struct Version {
    pub major: u32,
    pub minor: u32,
    pub patch: u32,
}

/// A version string that is not three dot-separated `u32` numbers.
#[derive(Debug, PartialEq, Eq)]
pub struct ParseError {
    pub input: String,
}

/// The text cut at every `.`; a text without `.` is one part.
pub open spec fn split_dots(s: Seq<char>) -> Seq<Seq<char>>
    decreases s.len(),
{
    if s.len() == 0 {
        seq![Seq::<char>::empty()]
    } else {
        let rest = split_dots(s.drop_last());
        if s.last() == '.' {
            rest.push(Seq::<char>::empty())
        } else {
            rest.update(rest.len() - 1, rest.last().push(s.last()))
        }
    }
}

pub open spec fn is_ascii_digit(c: char) -> bool {
    '0' <= c && c <= '9'
}

/// The number that a string of decimal digits writes.
pub open spec fn digits_value(p: Seq<char>) -> int
    decreases p.len(),
{
    if p.len() == 0 {
        0
    } else {
        digits_value(p.drop_last()) * 10 + ((p.last() as u32) as int - ('0' as u32) as int)
    }
}

/// What `u32::from_str` reads: an optional `+`, then one or more ASCII digits
/// writing a number no greater than `u32::MAX`.
pub open spec fn u32_text(p: Seq<char>) -> Option<u32> {
    let q = if p.len() > 0 && p[0] == '+' {
        p.drop_first()
    } else {
        p
    };
    if q.len() > 0 && (forall|i: int| 0 <= i < q.len() ==> is_ascii_digit(#[trigger] q[i]))
        && digits_value(q) <= u32::MAX {
        Some(digits_value(q) as u32)
    } else {
        None
    }
}

/// The version a text writes: exactly three parts between dots, each a `u32`.
pub open spec fn semver_text(s: Seq<char>) -> Option<(u32, u32, u32)> {
    let parts = split_dots(s);
    if parts.len() == 3 && u32_text(parts[0]) is Some && u32_text(parts[1]) is Some && u32_text(
        parts[2],
    ) is Some {
        Some((u32_text(parts[0])->0, u32_text(parts[1])->0, u32_text(parts[2])->0))
    } else {
        None
    }
}

/// Relies on `pubgrub::SemanticVersion::from_str`: the text is split at `.`; with
/// exactly three parts, each is read by `u32::from_str`, else the text is refused.
#[verifier::external_body]
fn semver_from_str(s: &str) -> (r: Option<(u32, u32, u32)>)
    ensures
        r == semver_text(s@),
{
    pubgrub::SemanticVersion::from_str(s).ok().map(|v| v.into())
}

/// The decimal digits of `n`, without leading zeros.
pub open spec fn decimal(n: nat) -> Seq<char>
    decreases n,
{
    let digits = seq!['0', '1', '2', '3', '4', '5', '6', '7', '8', '9'];
    if n < 10 {
        seq![digits[n as int]]
    } else {
        decimal(n / 10).push(digits[(n % 10) as int])
    }
}

/// A version written as `major.minor.patch`.
pub open spec fn version_string(v: (u32, u32, u32)) -> Seq<char> {
    decimal(v.0 as nat) + seq!['.'] + decimal(v.1 as nat) + seq!['.'] + decimal(v.2 as nat)
}

/// Relies on the `Display` of `pubgrub::SemanticVersion`: the three numbers in
/// decimal, joined by `.`.
#[verifier::external_body]
fn semver_display(v: Version) -> (r: String)
    ensures
        r@ == version_string(v@),
{
    pubgrub::SemanticVersion::new(v.major, v.minor, v.patch).to_string()
}

/// `a < b` in the order of versions: by major, then minor, then patch.
pub open spec fn version_lt(a: (u32, u32, u32), b: (u32, u32, u32)) -> bool {
    a.0 < b.0 || (a.0 == b.0 && (a.1 < b.1 || (a.1 == b.1 && a.2 < b.2)))
}

pub open spec fn version_le(a: (u32, u32, u32), b: (u32, u32, u32)) -> bool {
    version_lt(a, b) || a == b
}

impl View for Version {
    type V = (u32, u32, u32);

    open spec fn view(&self) -> (u32, u32, u32) {
        (self.major, self.minor, self.patch)
    }
}

impl Version {
    pub fn new(major: u32, minor: u32, patch: u32) -> (r: Version)
        ensures
            r@ == (major, minor, patch),
    {
        Version { major, minor, patch }
    }

    /// Reads `major.minor.patch`: three `u32` numbers in decimal, with no sign
    /// and no leading zero, so that each version has one spelling.
    pub fn parse(s: &str) -> (r: Result<Version, ParseError>)
        ensures
            match semver_text(s@) {
                Some(p) => if version_string(p) == s@ {
                    r is Ok && r->Ok_0@ == p
                } else {
                    r is Err && r->Err_0.input@ == s@
                },
                None => r is Err && r->Err_0.input@ == s@,
            },
    {
        let given = s.to_string();
        match semver_from_str(s) {
            Some((major, minor, patch)) => {
                let v = Version { major, minor, patch };
                if v.to_text() == given {
                    Ok(v)
                } else {
                    Err(ParseError { input: given })
                }
            },
            None => Err(ParseError { input: given }),
        }
    }

    /// The version written as `major.minor.patch`.
    pub fn to_text(&self) -> (r: String)
        ensures
            r@ == version_string(self@),
    {
        semver_display(*self)
    }

    /// Whether `self` comes strictly before `other`.
    pub fn precedes(&self, other: &Version) -> (r: bool)
        ensures
            r == version_lt(self@, other@),
    {
        self.major < other.major || (self.major == other.major && (self.minor < other.minor
            || (self.minor == other.minor && self.patch < other.patch)))
    }
}

/// The order of versions is a strict total order.
pub proof fn lemma_version_order(a: (u32, u32, u32), b: (u32, u32, u32), c: (u32, u32, u32))
    ensures
        !version_lt(a, a),
        version_lt(a, b) && version_lt(b, c) ==> version_lt(a, c),
        version_lt(a, b) || a == b || version_lt(b, a),
{
}

} // verus!
