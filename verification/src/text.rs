//! Matching a process name against the filter, without regard to case.

use vstd::prelude::*;
use vstd::std_specs::iter::IteratorSpec;

verus! {

/// The lower-case form of a text: what `str::to_lowercase` makes of it.
pub uninterp spec fn lowercase(text: Seq<char>) -> Seq<char>;

/// Whether `needle` stands in `text` from position `at` on.
pub open spec fn occurs_at(needle: Seq<char>, text: Seq<char>, at: int) -> bool {
    &&& 0 <= at
    &&& at + needle.len() <= text.len()
    &&& text.subrange(at, at + needle.len()) == needle
}

/// Whether `needle` stands somewhere in `text`.
pub open spec fn occurs_in(needle: Seq<char>, text: Seq<char>) -> bool {
    exists|at: int| occurs_at(needle, text, at)
}

/// Whether a process of this name passes the filter: the empty filter lets
/// every name pass, any other must occur in the name once both are in lower
/// case.
pub open spec fn name_matches(name: Seq<char>, filter: Seq<char>) -> bool {
    filter.len() == 0 || occurs_in(lowercase(filter), lowercase(name))
}

/// Calls `str::to_lowercase`, which returns the lower-case equivalent of the
/// text as a new string. The result is taken on trust and only named: it is
/// [`lowercase`] of the text.
#[verifier::external_body]
pub(crate) fn to_lowercase(text: &str) -> (lowered: String)
    ensures
        lowered@ == lowercase(text@),
{
    text.to_lowercase()
}

/// The characters of a text.
pub fn chars_of(text: &str) -> (chars: Vec<char>)
    ensures
        chars@ == text@,
{
    broadcast use vstd::string::group_string_axioms;

    let mut chars: Vec<char> = Vec::new();
    for c in it: text.chars()
        invariant
            it.seq() == text@,
            chars@ == it.seq().take(it.index()),
    {
        chars.push(c);
    }
    assert(chars@ =~= text@);
    chars
}

/// The characters of a text in lower case.
pub fn fold(text: &str) -> (folded: Vec<char>)
    ensures
        folded@ == lowercase(text@),
{
    let lowered = to_lowercase(text);
    chars_of(lowered.as_str())
}

/// Decides [`occurs_at`].
pub fn occurs_here(needle: &Vec<char>, text: &Vec<char>, at: usize) -> (here: bool)
    ensures
        here == occurs_at(needle@, text@, at as int),
{
    if at > text.len() || needle.len() > text.len() - at {
        return false;
    }
    let mut matched: usize = 0;
    while matched < needle.len()
        invariant
            matched <= needle.len(),
            at + needle.len() <= text.len(),
            forall|k: int| 0 <= k < matched ==> text@[at + k] == needle@[k],
        decreases needle.len() - matched,
    {
        if text[at + matched] != needle[matched] {
            assert(text@.subrange(at as int, at + needle.len())[matched as int]
                != needle@[matched as int]);
            return false;
        }
        matched = matched + 1;
    }
    assert(text@.subrange(at as int, at + needle.len()) =~= needle@);
    true
}

/// Decides [`occurs_in`].
pub fn occurs(needle: &Vec<char>, text: &Vec<char>) -> (found: bool)
    ensures
        found == occurs_in(needle@, text@),
{
    if needle.len() > text.len() {
        return false;
    }
    if needle.len() == 0 {
        assert(text@.subrange(0, 0) =~= needle@);
        assert(occurs_at(needle@, text@, 0));
        return true;
    }
    let last: usize = text.len() - needle.len();
    let mut at: usize = 0;
    while at <= last
        invariant
            at <= last + 1,
            0 < needle.len() <= text.len(),
            last == text.len() - needle.len(),
            forall|k: int| 0 <= k < at ==> !occurs_at(needle@, text@, k),
        decreases last + 1 - at,
    {
        if occurs_here(needle, text, at) {
            return true;
        }
        at = at + 1;
    }
    false
}

/// Whether a process named `name` passes `filter`.
pub fn name_passes(name: &str, filter: &str) -> (passes: bool)
    ensures
        passes == name_matches(name@, filter@),
{
    if filter.is_empty() {
        true
    } else {
        let folded_filter = fold(filter);
        let folded_name = fold(name);
        occurs(&folded_filter, &folded_name)
    }
}

} // verus!
