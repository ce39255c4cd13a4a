//! Who may use the inventory: one user name with one password, whatever
//! white space surrounds them.

use vstd::prelude::*;
use crate::text::chars_of;

verus! {

/// White space: the characters that Unicode gives the property White_Space.
pub open spec fn is_space(c: char) -> bool {
    ('\u{9}' <= c && c <= '\u{d}') || c == ' ' || c == '\u{85}' || c == '\u{a0}' || c
        == '\u{1680}' || ('\u{2000}' <= c && c <= '\u{200a}') || c == '\u{2028}' || c
        == '\u{2029}' || c == '\u{202f}' || c == '\u{205f}' || c == '\u{3000}'
}

/// `s` without the white space that it starts with.
pub open spec fn trim_start(s: Seq<char>) -> Seq<char>
    decreases s.len(),
{
    if s.len() > 0 && is_space(s[0]) {
        trim_start(s.skip(1))
    } else {
        s
    }
}

/// `s` without the white space that it ends with.
pub open spec fn trim_end(s: Seq<char>) -> Seq<char>
    decreases s.len(),
{
    if s.len() > 0 && is_space(s.last()) {
        trim_end(s.drop_last())
    } else {
        s
    }
}

/// `s` without the white space at either end.
pub open spec fn trimmed(s: Seq<char>) -> Seq<char> {
    trim_end(trim_start(s))
}

/// The user name that is let in.
pub open spec fn expected_username() -> Seq<char> {
    "azfar"@
}

/// The password that is let in.
pub open spec fn expected_password() -> Seq<char> {
    "organic"@
}

/// Whether the two entries, white space at their ends aside, are the user
/// name and the password that are let in.
pub open spec fn accepts(username: Seq<char>, password: Seq<char>) -> bool {
    trimmed(username) == expected_username() && trimmed(password) == expected_password()
}

fn is_space_char(c: char) -> (r: bool)
    ensures
        r == is_space(c),
{
    ('\u{9}' <= c && c <= '\u{d}') || c == ' ' || c == '\u{85}' || c == '\u{a0}' || c
        == '\u{1680}' || ('\u{2000}' <= c && c <= '\u{200a}') || c == '\u{2028}' || c
        == '\u{2029}' || c == '\u{202f}' || c == '\u{205f}' || c == '\u{3000}'
}

/// Whether `entry`, white space at its ends aside, is `expected`.
fn matches_trimmed(entry: &Vec<char>, expected: &Vec<char>) -> (same: bool)
    ensures
        same == (trimmed(entry@) == expected@),
{
    let mut from: usize = 0;
    assert(entry@.skip(0) =~= entry@);
    while from < entry.len() && is_space_char(entry[from])
        invariant
            from <= entry.len(),
            trim_start(entry@) == trim_start(entry@.skip(from as int)),
        decreases entry.len() - from,
    {
        proof {
            assert(entry@.skip(from as int)[0] == entry@[from as int]);
            assert(entry@.skip(from as int).skip(1) =~= entry@.skip(from as int + 1));
        }
        from += 1;
    }
    proof {
        if from < entry.len() {
            assert(entry@.skip(from as int)[0] == entry@[from as int]);
        } else {
            assert(entry@.skip(from as int).len() == 0);
        }
        assert(entry@.skip(from as int) =~= entry@.subrange(from as int, entry@.len() as int));
    }
    let mut to: usize = entry.len();
    while to > from && is_space_char(entry[to - 1])
        invariant
            from <= to <= entry.len(),
            trimmed(entry@) == trim_end(entry@.subrange(from as int, to as int)),
        decreases to,
    {
        proof {
            let part = entry@.subrange(from as int, to as int);
            assert(part.last() == entry@[to as int - 1]);
            assert(part.drop_last() =~= entry@.subrange(from as int, to as int - 1));
        }
        to -= 1;
    }
    let ghost part = entry@.subrange(from as int, to as int);
    proof {
        if to > from {
            assert(part.last() == entry@[to as int - 1]);
        }
        assert(trimmed(entry@) == part);
    }
    if to - from != expected.len() {
        return false;
    }
    let mut i: usize = 0;
    while i < expected.len()
        invariant
            i <= expected.len(),
            from <= to <= entry.len(),
            to - from == expected.len(),
            part == entry@.subrange(from as int, to as int),
            trimmed(entry@) == part,
            forall|k: int| 0 <= k < i ==> part[k] == expected@[k],
        decreases expected.len() - i,
    {
        if entry[from + i] != expected[i] {
            assert(part[i as int] != expected@[i as int]);
            return false;
        }
        i += 1;
    }
    assert(part =~= expected@);
    true
}

/// Decides whether to let a user in.
pub fn authenticate(username: &str, password: &str) -> (allowed: bool)
    ensures
        allowed == accepts(username@, password@),
{
    let username_entry = chars_of(username);
    let password_entry = chars_of(password);
    let username_wanted = chars_of("azfar");
    let password_wanted = chars_of("organic");
    matches_trimmed(&username_entry, &username_wanted) && matches_trimmed(
        &password_entry,
        &password_wanted,
    )
}

} // verus!
