//! The path policy for archive keys.
//!
//! An archive key is the relative, forward-slash path under which an entry's
//! bytes are stored and later recreated on disk. The policy keeps keys
//! portable and extraction safe: a key must not be absolute, must not contain
//! a `..` segment, must end in a non-empty file name, and must not contain a
//! NUL character (the container's name table is NUL-terminated).

use vstd::prelude::*;
use vstd::std_specs::iter::IteratorSpec;

use crate::err::PathError;

verus! {

/// True when position `i` of `s` starts a `..` path segment: the two dots
/// stand directly after the start of the key or a slash, and directly before
/// the end of the key or a slash.
pub open spec fn is_dotdot_at(s: Seq<char>, i: int) -> bool {
    &&& 0 <= i
    &&& i + 2 <= s.len()
    &&& i == 0 || s[i - 1] == '/'
    &&& s[i] == '.'
    &&& s[i + 1] == '.'
    &&& i + 2 == s.len() || s[i + 2] == '/'
}

/// True when the key contains a `..` segment anywhere.
pub open spec fn has_traversal(s: Seq<char>) -> bool {
    exists|i: int| is_dotdot_at(s, i)
}

/// The path policy itself: the first reason to reject the key, or `None` when
/// the key is acceptable. Absoluteness is reported before traversal, traversal
/// before a missing file name, and that before an embedded NUL.
pub open spec fn check_key(s: Seq<char>) -> Option<PathError> {
    if s.len() > 0 && s[0] == '/' {
        Some(PathError::Absolute)
    } else if has_traversal(s) {
        Some(PathError::Traversal)
    } else if s.len() == 0 || s[s.len() - 1] == '/' {
        Some(PathError::NotFile)
    } else if exists|i: int| 0 <= i < s.len() && s[i] == '\0' {
        Some(PathError::IllegalChar)
    } else {
        None
    }
}

/// True when the key passes the path policy.
pub open spec fn valid_key(s: Seq<char>) -> bool {
    check_key(s) is None
}

/// A valid key is non-empty and contains neither a slash at its start nor a
/// NUL character anywhere.
pub proof fn lemma_valid_key_shape(s: Seq<char>)
    requires
        valid_key(s),
    ensures
        s.len() > 0,
        forall|i: int| 0 <= i < s.len() ==> s[i] != '\0',
{
}

/// Collects the characters of a string slice into a vector, preserving the
/// string's character sequence exactly.
pub fn chars_of(s: &str) -> (v: Vec<char>)
    ensures
        v@ == s@,
{
    let mut it = s.chars();
    let mut v: Vec<char> = Vec::new();
    loop
        invariant
            v@ + it.remaining() == s@,
            it.decrease() is Some,
        ensures
            v@ == s@,
        decreases it.decrease()->0,
    {
        match it.next() {
            Some(c) => {
                v.push(c);
            },
            None => {
                assert(v@ =~= s@);
                break ;
            },
        }
    }
    v
}

/// Applies the path policy to a key, returning the first reason to reject it,
/// or `None` when the key is acceptable.
#[verifier::loop_isolation(false)]
pub fn validate_key(name: &str) -> (r: Option<PathError>)
    ensures
        r == check_key(name@),
{
    let cs = chars_of(name);
    let n = cs.len();
    if n > 0 && cs[0] == '/' {
        return Some(PathError::Absolute);
    }
    let mut i: usize = 0;
    while i < n
        invariant
            n == cs@.len(),
            cs@ == name@,
            forall|k: int| 0 <= k < i ==> !is_dotdot_at(name@, k),
        decreases n - i,
    {
        if n - i >= 2 && (i == 0 || cs[i - 1] == '/') && cs[i] == '.' && cs[i + 1] == '.' && (n - i
            == 2 || cs[i + 2] == '/') {
            assert(is_dotdot_at(name@, i as int));
            return Some(PathError::Traversal);
        }
        assert(!is_dotdot_at(name@, i as int));
        i = i + 1;
    }
    assert(forall|k: int| !is_dotdot_at(name@, k));
    if n == 0 || cs[n - 1] == '/' {
        return Some(PathError::NotFile);
    }
    let mut j: usize = 0;
    while j < n
        invariant
            n == cs@.len(),
            cs@ == name@,
            forall|k: int| 0 <= k < j ==> name@[k] != '\0',
        decreases n - j,
    {
        if cs[j] == '\0' {
            return Some(PathError::IllegalChar);
        }
        j = j + 1;
    }
    None
}

} // verus!
