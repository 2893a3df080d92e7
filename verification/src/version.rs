//! The order of versions. A version is held as the text that stands for it;
//! what semver reads in that text decides where it sorts.

use vstd::prelude::*;
use crate::text::{
    lemma_text_lt_irreflexive, lemma_text_lt_total, lemma_text_lt_transitive, str_lt, text_lt,
};

verus! {

/// What semver reads in `text`: the major, minor and patch numbers and the
/// pre-release part, which is empty for a release; nothing where `text` is
/// no version by its grammar.
pub uninterp spec fn version_parts(text: Seq<char>) -> Option<(u64, u64, u64, Seq<char>)>;

/// Reads `text` with `semver::Version::parse` and hands out the three numbers
/// and the text of the pre-release part of what it returns, or nothing where
/// it returns an error. The parser reads nothing but `text`.
#[verifier::external_body]
fn read_version(text: &str) -> (parts: Option<(u64, u64, u64, String)>)
    ensures
        parts.deep_view() == version_parts(text@),
{
    match semver::Version::parse(text) {
        Ok(version) => Some(
            (version.major, version.minor, version.patch, version.pre.as_str().to_owned()),
        ),
        Err(_) => None,
    }
}

/// Whether the version `a`, in which `a_parts` was read, sorts before the
/// version `b`, in which `b_parts` was read.
///
/// Versions are ordered by their three numbers, as numbers. With equal numbers
/// a pre-release comes before the release. What is left undecided by that is
/// ordered as text, which for two pre-releases of one release need not be the
/// precedence of their identifiers. A text in which no version was read comes
/// before every text in which one was.
pub open spec fn parts_before(
    a_parts: Option<(u64, u64, u64, Seq<char>)>,
    a: Seq<char>,
    b_parts: Option<(u64, u64, u64, Seq<char>)>,
    b: Seq<char>,
) -> bool {
    match (a_parts, b_parts) {
        (None, None) => text_lt(a, b),
        (None, Some(_)) => true,
        (Some(_), None) => false,
        (Some(x), Some(y)) => {
            if x.0 != y.0 {
                x.0 < y.0
            } else if x.1 != y.1 {
                x.1 < y.1
            } else if x.2 != y.2 {
                x.2 < y.2
            } else if (x.3.len() == 0) != (y.3.len() == 0) {
                y.3.len() == 0
            } else {
                text_lt(a, b)
            }
        },
    }
}

/// The version `a` sorts before the version `b`.
pub open spec fn version_before(a: Seq<char>, b: Seq<char>) -> bool {
    parts_before(version_parts(a), a, version_parts(b), b)
}

/// No version sorts before itself.
pub proof fn lemma_version_irreflexive(a: Seq<char>)
    ensures
        !version_before(a, a),
{
    lemma_text_lt_irreflexive(a);
}

/// The order of versions is transitive.
pub proof fn lemma_version_transitive(a: Seq<char>, b: Seq<char>, c: Seq<char>)
    requires
        version_before(a, b),
        version_before(b, c),
    ensures
        version_before(a, c),
{
    if text_lt(a, b) && text_lt(b, c) {
        lemma_text_lt_transitive(a, b, c);
    }
}

/// Of two different versions one sorts before the other.
pub proof fn lemma_version_total(a: Seq<char>, b: Seq<char>)
    requires
        a != b,
    ensures
        version_before(a, b) || version_before(b, a),
{
    lemma_text_lt_total(a, b);
}

/// Whether `a` sorts before `b`, given what was read in each.
pub fn read_precedes(
    a_parts: &Option<(u64, u64, u64, String)>,
    a: &str,
    b_parts: &Option<(u64, u64, u64, String)>,
    b: &str,
) -> (r: bool)
    ensures
        r == parts_before(a_parts.deep_view(), a@, b_parts.deep_view(), b@),
{
    match (a_parts, b_parts) {
        (None, None) => str_lt(a, b),
        (None, Some(_)) => true,
        (Some(_), None) => false,
        (Some(x), Some(y)) => {
            if x.0 != y.0 {
                x.0 < y.0
            } else if x.1 != y.1 {
                x.1 < y.1
            } else if x.2 != y.2 {
                x.2 < y.2
            } else if x.3.as_str().is_empty() != y.3.as_str().is_empty() {
                y.3.as_str().is_empty()
            } else {
                str_lt(a, b)
            }
        },
    }
}

/// Whether the version `a` sorts before the version `b`.
pub fn version_precedes(a: &str, b: &str) -> (r: bool)
    ensures
        r == version_before(a@, b@),
{
    let a_parts = read_version(a);
    let b_parts = read_version(b);
    read_precedes(&a_parts, a, &b_parts, b)
}

} // verus!
