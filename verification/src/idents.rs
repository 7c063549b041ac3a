//! Identifier syntax of flag names and packages: a name is a lower-case
//! letter followed by lower-case letters, digits and single underscores; a
//! package is two or more names joined by dots.

use vstd::prelude::*;
use crate::text::{chars_of, char_is, seqs_view, split_by, split_chars};

verus! {

pub open spec fn is_ident_char(c: char) -> bool {
    ('a' <= c && c <= 'z') || ('0' <= c && c <= '9') || c == '_'
}

/// `[a-z][a-z0-9_]*` with no two underscores in a row.
pub open spec fn is_name_ident(s: Seq<char>) -> bool {
    &&& s.len() > 0
    &&& 'a' <= s[0] && s[0] <= 'z'
    &&& forall|i: int| 0 <= i < s.len() ==> is_ident_char(#[trigger] s[i])
    &&& forall|i: int| 0 <= i < s.len() - 1 ==> !(#[trigger] s[i] == '_' && s[i + 1] == '_')
}

/// At least one dot, and every dot-separated part a name identifier.
pub open spec fn is_package_ident(s: Seq<char>) -> bool {
    &&& s.contains('.')
    &&& forall|i: int|
        0 <= i < split_by(s, char_is('.')).len() ==> is_name_ident(
            #[trigger] split_by(s, char_is('.'))[i],
        )
}

fn name_ident_chars(s: &Vec<char>) -> (r: bool)
    ensures
        r == is_name_ident(s@),
{
    if s.len() == 0 {
        return false;
    }
    if !('a' <= s[0] && s[0] <= 'z') {
        return false;
    }
    let mut i: usize = 0;
    while i < s.len()
        invariant
            0 < s.len(),
            'a' <= s@[0] && s@[0] <= 'z',
            i <= s.len(),
            forall|k: int| 0 <= k < i ==> is_ident_char(#[trigger] s@[k]),
            forall|k: int| 0 <= k < i - 1 ==> !(#[trigger] s@[k] == '_' && s@[k + 1] == '_'),
        decreases s.len() - i,
    {
        let c = s[i];
        if !(('a' <= c && c <= 'z') || ('0' <= c && c <= '9') || c == '_') {
            return false;
        }
        if i > 0 && c == '_' && s[i - 1] == '_' {
            assert(s@[i - 1] == '_' && s@[(i - 1) + 1] == '_');
            return false;
        }
        i = i + 1;
    }
    true
}

/// Whether `s` is a valid flag name identifier.
pub fn is_valid_name_ident(s: &str) -> (r: bool)
    ensures
        r == is_name_ident(s@),
{
    let v = chars_of(s);
    name_ident_chars(&v)
}

/// Whether `s` is a valid package identifier.
pub fn is_valid_package_ident(s: &str) -> (r: bool)
    ensures
        r == is_package_ident(s@),
{
    let v = chars_of(s);
    let mut has_dot = false;
    let mut i: usize = 0;
    while i < v.len()
        invariant
            i <= v.len(),
            v@ == s@,
            has_dot == (exists|k: int| 0 <= k < i && #[trigger] v@[k] == '.'),
        decreases v.len() - i,
    {
        if v[i] == '.' {
            has_dot = true;
        }
        i = i + 1;
    }
    if !has_dot {
        return false;
    }
    let parts = split_chars(&v, '.');
    let mut j: usize = 0;
    while j < parts.len()
        invariant
            j <= parts.len(),
            seqs_view(parts@) == split_by(s@, char_is('.')),
            forall|k: int| 0 <= k < j ==> is_name_ident(#[trigger] split_by(s@, char_is('.'))[k]),
        decreases parts.len() - j,
    {
        if !name_ident_chars(&parts[j]) {
            assert(split_by(s@, char_is('.'))[j as int] == parts@[j as int]@);
            return false;
        }
        assert(split_by(s@, char_is('.'))[j as int] == parts@[j as int]@);
        j = j + 1;
    }
    true
}

} // verus!
