//! Small helpers for note creation: turning a title into a safe
//! filename, and the text of a fresh note.

use vstd::prelude::*;
use crate::text::{spec_trim, trim_chars, chars_of, string_from_chars};

verus! {

/// What `char::is_alphanumeric` returns; the full Unicode tables stand
/// behind it, so the result only carries this name.
pub uninterp spec fn is_unicode_alphanumeric(c: char) -> bool;

/// What `str::to_lowercase` returns for given characters.
pub uninterp spec fn lower_of(s: Seq<char>) -> Seq<char>;

/// Relies on `char::is_alphanumeric`: true exactly for Unicode
/// alphabetic and numeric characters; ASCII letters and digits are
/// among them.
#[verifier::external_body]
fn char_is_alphanumeric(c: char) -> (r: bool)
    ensures
        r == is_unicode_alphanumeric(c),
        ('a' <= c && c <= 'z') || ('A' <= c && c <= 'Z') || ('0' <= c && c <= '9') ==> r,
{
    c.is_alphanumeric()
}

/// Relies on `str::to_lowercase`: the result is a function of the
/// characters alone.
#[verifier::external_body]
fn lowercase(s: &str) -> (r: String)
    ensures
        r@ == lower_of(s@),
{
    s.to_lowercase()
}

/// A character a filename keeps as written.
pub open spec fn keep_char(c: char) -> bool {
    is_unicode_alphanumeric(c) || c == '-' || c == '_' || c == ' '
}

/// Characters a filename keeps stay, all others become dashes.
pub open spec fn dashed(s: Seq<char>) -> Seq<char> {
    s.map_values(
        |c: char|
            if keep_char(c) {
                c
            } else {
                '-'
            },
    )
}

/// Spaces become dashes.
pub open spec fn spaced(s: Seq<char>) -> Seq<char> {
    s.map_values(
        |c: char|
            if c == ' ' {
                '-'
            } else {
                c
            },
    )
}

/// A title as a filename: unsafe characters dashed, trimmed, spaces
/// dashed, lowercased.
pub open spec fn spec_sanitize(name: Seq<char>) -> Seq<char> {
    lower_of(spaced(spec_trim(dashed(name))))
}

/// Turn a note title into a safe filename stem: alphanumerics, dashes,
/// underscores and spaces stay, anything else becomes a dash; the
/// result is trimmed, spaces become dashes, and the whole is
/// lowercased.
pub fn sanitize_filename(name: &str) -> (r: String)
    ensures
        r@ == spec_sanitize(name@),
{
    let chars = chars_of(name);
    let n = chars.len();
    let mut kept: Vec<char> = Vec::new();
    let mut i: usize = 0;
    while i < n
        invariant
            0 <= i <= n,
            n == chars@.len(),
            chars@ == name@,
            kept@ == dashed(name@.subrange(0, i as int)),
        decreases n - i,
    {
        let c = chars[i];
        if char_is_alphanumeric(c) || c == '-' || c == '_' || c == ' ' {
            kept.push(c);
        } else {
            kept.push('-');
        }
        proof {
            assert(kept@ =~= dashed(name@.subrange(0, i + 1)));
        }
        i = i + 1;
    }
    proof {
        assert(name@.subrange(0, n as int) =~= name@);
    }
    let trimmed = trim_chars(&kept);
    let m = trimmed.len();
    let mut spacedv: Vec<char> = Vec::new();
    let mut j: usize = 0;
    while j < m
        invariant
            0 <= j <= m,
            m == trimmed@.len(),
            trimmed@ == spec_trim(dashed(name@)),
            spacedv@ == spaced(trimmed@.subrange(0, j as int)),
        decreases m - j,
    {
        let c = trimmed[j];
        if c == ' ' {
            spacedv.push('-');
        } else {
            spacedv.push(c);
        }
        proof {
            assert(spacedv@ =~= spaced(trimmed@.subrange(0, j + 1)));
        }
        j = j + 1;
    }
    proof {
        assert(trimmed@.subrange(0, m as int) =~= trimmed@);
    }
    let s = string_from_chars(&spacedv);
    lowercase(s.as_str())
}

/// The text of a freshly created note: its title as a heading.
pub fn new_note_content(title: &str) -> (r: String)
    ensures
        r@ == seq!['#', ' '] + title@ + seq!['\n', '\n'],
{
    let tc = chars_of(title);
    let mut out: Vec<char> = Vec::new();
    out.push('#');
    out.push(' ');
    let mut body = crate::text::copy_range(&tc, 0, tc.len());
    out.append(&mut body);
    out.push('\n');
    out.push('\n');
    proof {
        assert(out@ =~= seq!['#', ' '] + title@ + seq!['\n', '\n']);
    }
    string_from_chars(&out)
}

} // verus!
