//! Finding where a pattern matches in a text.

use vstd::prelude::*;
use vstd::string::StringSliceAdditionalSpecFns;

verus! {

/// The byte offsets at which the regular expression `pattern` matches in
/// `text`: the starts of the matches that a search from left to right
/// finds, none overlapping another, in the order in which it finds them.
/// Nothing where `pattern` is no regular expression.
pub uninterp spec fn regex_starts(pattern: Seq<char>, text: Seq<char>) -> Option<Seq<usize>>;

/// Whether the offsets rise.
pub open spec fn rising(starts: Seq<usize>) -> bool {
    forall|i: int, j: int| 0 <= i < j < starts.len() ==> starts[i] < starts[j]
}

/// Whether each offset is an offset of a text of `len` bytes.
pub open spec fn inside(starts: Seq<usize>, len: int) -> bool {
    forall|i: int| 0 <= i < starts.len() ==> #[trigger] starts[i] <= len
}

/// Finds where `pattern` matches in `text`.
///
/// Trusted: the body compiles the pattern with `regex::Regex::new`, which
/// fails on what is no regular expression, and walks `Regex::find_iter`,
/// which yields the matches one after the other, none overlapping
/// another; `Match::start` is the byte offset of a match in the text. The
/// contract names what that search yields and says that the offsets rise
/// and lie inside the text.
#[verifier::external_body]
pub(crate) fn find_starts(pattern: &str, text: &str) -> (r: Option<Vec<usize>>)
    ensures
        r is Some <==> regex_starts(pattern@, text@) is Some,
        r matches Some(starts) ==> regex_starts(pattern@, text@) == Some(starts@) && rising(
            starts@,
        ) && inside(starts@, text.spec_bytes().len() as int),
{
    regex::Regex::new(pattern).ok().map(|re| re.find_iter(text).map(|m| m.start()).collect())
}

/// The items of `v` in the opposite order.
pub fn reversed<T>(v: Vec<T>) -> (r: Vec<T>)
    ensures
        r@.len() == v@.len(),
        forall|i: int| 0 <= i < r@.len() ==> r@[i] == v@[v@.len() - 1 - i],
{
    let ghost given = v@;
    let mut rest = v;
    let mut out: Vec<T> = Vec::new();
    loop
        invariant
            rest@.len() + out@.len() == given.len(),
            forall|i: int| 0 <= i < rest@.len() ==> rest@[i] == given[i],
            forall|i: int| 0 <= i < out@.len() ==> out@[i] == given[given.len() - 1 - i],
        ensures
            rest@.len() == 0,
        decreases rest@.len(),
    {
        match rest.pop() {
            Some(item) => {
                out.push(item);
            },
            None => {
                break ;
            },
        }
    }
    out
}

} // verus!
