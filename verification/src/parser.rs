//! The note parser: a pure function from note text and filename to a
//! structured note (title, optional metadata block, extracted wiki-links
//! with line numbers, word count).
//!
//! The grammar is the library's own, written as an explicit line-oriented
//! scanner:
//! - a metadata block is delimited by a `---` marker line at the very
//!   start of the text and the first later `---` marker line with a
//!   non-empty interior; the interior is a key/value document with the
//!   recognized keys `title`, `created`, `modified` (plain scalars) and
//!   `tags` (a block list of `- item` lines). An unparsable interior
//!   degrades to "no metadata"; a malformed `tags` value degrades to the
//!   empty tag list.
//! - a wiki-link is `[[target]]` or `[[target|display]]`, scanned line by
//!   line, non-greedy, several per line; targets that trim to nothing are
//!   discarded.
//! - the title is the metadata `title` if present and non-empty, else the
//!   first single-`#` heading seen before any other non-blank, non-`#`
//!   content, else the filename with a trailing `.md` removed.
//! - the word count is the number of whitespace-delimited tokens of the
//!   entire text, metadata block and heading markers included.

use vstd::prelude::*;
use crate::text::{
    is_ws, spec_trim, spec_lines, leading_ws, ws_char, trim_chars, split_lines, chars_of,
    string_from_chars, view_opt_string,
};

verus! {

// ---------------------------------------------------------------------
// Structured results and their spec-level views
// ---------------------------------------------------------------------

/// One extracted wiki-link occurrence.
pub struct ExtractedLink {
    /// The link target as written, trimmed.
    pub target: String,
    /// The display text after `|`, trimmed, if any.
    pub display: Option<String>,
    /// 1-indexed line of the occurrence.
    pub line_number: usize,
}

/// The metadata block of a note.
pub struct Frontmatter {
    pub title: Option<String>,
    pub created: Option<String>,
    pub modified: Option<String>,
    pub tags: Vec<String>,
}

/// A parsed note.
pub struct ParsedNote {
    pub title: String,
    pub frontmatter: Option<Frontmatter>,
    pub links: Vec<ExtractedLink>,
    pub word_count: usize,
    pub content: String,
}

/// Spec-level view of an extracted link.
#[verifier::ext_equal]
pub struct LinkSpec {
    pub target: Seq<char>,
    pub display: Option<Seq<char>>,
    pub line: int,
}

/// Spec-level view of a metadata block.
#[verifier::ext_equal]
pub struct FrontmatterSpec {
    pub title: Option<Seq<char>>,
    pub created: Option<Seq<char>>,
    pub modified: Option<Seq<char>>,
    pub tags: Seq<Seq<char>>,
}

/// Spec-level view of a parsed note.
#[verifier::ext_equal]
pub struct NoteSpec {
    pub title: Seq<char>,
    pub frontmatter: Option<FrontmatterSpec>,
    pub links: Seq<LinkSpec>,
    pub word_count: nat,
    pub content: Seq<char>,
}

impl View for ExtractedLink {
    type V = LinkSpec;

    open spec fn view(&self) -> LinkSpec {
        LinkSpec {
            target: self.target@,
            display: view_opt_string(self.display),
            line: self.line_number as int,
        }
    }
}

impl View for Frontmatter {
    type V = FrontmatterSpec;

    open spec fn view(&self) -> FrontmatterSpec {
        FrontmatterSpec {
            title: view_opt_string(self.title),
            created: view_opt_string(self.created),
            modified: view_opt_string(self.modified),
            tags: self.tags@.map_values(|t: String| t@),
        }
    }
}

impl View for ParsedNote {
    type V = NoteSpec;

    open spec fn view(&self) -> NoteSpec {
        NoteSpec {
            title: self.title@,
            frontmatter: match self.frontmatter {
                Some(f) => Some(f@),
                None => None,
            },
            links: self.links@.map_values(|l: ExtractedLink| l@),
            word_count: self.word_count as nat,
            content: self.content@,
        }
    }
}

// ---------------------------------------------------------------------
// Word count
// ---------------------------------------------------------------------

/// Number of whitespace-delimited tokens of `s` from position `i` on,
/// given whether position `i` is inside a token begun earlier.
pub open spec fn wc_from(s: Seq<char>, i: int, in_word: bool) -> nat
    decreases s.len() - i,
{
    if i < 0 || i >= s.len() {
        0
    } else if is_ws(s[i]) {
        wc_from(s, i + 1, false)
    } else if in_word {
        wc_from(s, i + 1, true)
    } else {
        1 + wc_from(s, i + 1, true)
    }
}

/// Number of whitespace-delimited tokens of `s`, as
/// `str::split_whitespace().count()` yields it.
pub open spec fn spec_word_count(s: Seq<char>) -> nat {
    wc_from(s, 0, false)
}

/// Count the whitespace-delimited tokens of a text.
pub fn count_words_chars(s: &Vec<char>) -> (r: usize)
    ensures
        r as nat == spec_word_count(s@),
{
    let n = s.len();
    let mut count: usize = 0;
    let mut in_word = false;
    let mut i: usize = 0;
    while i < n
        invariant
            0 <= i <= n,
            n == s@.len(),
            count <= i,
            count + wc_from(s@, i as int, in_word) == spec_word_count(s@),
        decreases n - i,
    {
        if ws_char(s[i]) {
            in_word = false;
        } else {
            if !in_word {
                count = count + 1;
            }
            in_word = true;
        }
        i = i + 1;
    }
    count
}

/// Count the whitespace-delimited tokens of a text given as `&str`.
pub fn count_words(text: &str) -> (r: usize)
    ensures
        r as nat == spec_word_count(text@),
{
    let chars = chars_of(text);
    count_words_chars(&chars)
}

// ---------------------------------------------------------------------
// Wiki-link extraction
// ---------------------------------------------------------------------

/// Index of the first `']'` or `'|'` at or after `j`, or the length.
pub open spec fn scan_tgt_end(line: Seq<char>, j: int) -> int
    decreases line.len() - j,
{
    if j < 0 || j >= line.len() {
        line.len() as int
    } else if line[j] == ']' || line[j] == '|' {
        j
    } else {
        scan_tgt_end(line, j + 1)
    }
}

/// Index of the first `']'` at or after `j`, or the length.
pub open spec fn scan_close(line: Seq<char>, j: int) -> int
    decreases line.len() - j,
{
    if j < 0 || j >= line.len() {
        line.len() as int
    } else if line[j] == ']' {
        j
    } else {
        scan_close(line, j + 1)
    }
}

pub proof fn lemma_scan_tgt_end(line: Seq<char>, j: int)
    requires
        0 <= j <= line.len(),
    ensures
        j <= scan_tgt_end(line, j) <= line.len(),
        scan_tgt_end(line, j) < line.len() ==> line[scan_tgt_end(line, j)] == ']'
            || line[scan_tgt_end(line, j)] == '|',
        forall|k: int| j <= k < scan_tgt_end(line, j) ==> line[k] != ']' && line[k] != '|',
    decreases line.len() - j,
{
    if j < line.len() && line[j] != ']' && line[j] != '|' {
        lemma_scan_tgt_end(line, j + 1);
    }
}

pub proof fn lemma_scan_close(line: Seq<char>, j: int)
    requires
        0 <= j <= line.len(),
    ensures
        j <= scan_close(line, j) <= line.len(),
        scan_close(line, j) < line.len() ==> line[scan_close(line, j)] == ']',
        forall|k: int| j <= k < scan_close(line, j) ==> line[k] != ']',
    decreases line.len() - j,
{
    if j < line.len() && line[j] != ']' {
        lemma_scan_close(line, j + 1);
    }
}

/// The wiki-link match starting exactly at position `i` of one line, if
/// any: the raw (untrimmed) target, the raw display text, and the
/// position just past the closing `]]`.
pub open spec fn link_at(line: Seq<char>, i: int) -> Option<(Seq<char>, Option<Seq<char>>, int)> {
    if !(0 <= i && i + 1 < line.len() && line[i] == '[' && line[i + 1] == '[') {
        None
    } else {
        let t = scan_tgt_end(line, i + 2);
        if t == i + 2 || t >= line.len() {
            None
        } else if line[t] == ']' {
            if t + 1 < line.len() && line[t + 1] == ']' {
                Some((line.subrange(i + 2, t), None, t + 2))
            } else {
                None
            }
        } else {
            let d = scan_close(line, t + 1);
            if d == t + 1 || d >= line.len() {
                None
            } else if d + 1 < line.len() && line[d + 1] == ']' {
                Some((line.subrange(i + 2, t), Some(line.subrange(t + 1, d)), d + 2))
            } else {
                None
            }
        }
    }
}

pub proof fn lemma_link_at_bounds(line: Seq<char>, i: int)
    requires
        0 <= i,
    ensures
        match link_at(line, i) {
            Some((t, d, end)) => i + 4 <= end <= line.len(),
            None => true,
        },
{
    if 0 <= i && i + 1 < line.len() && line[i] == '[' && line[i + 1] == '[' {
        lemma_scan_tgt_end(line, i + 2);
        let t = scan_tgt_end(line, i + 2);
        if t > i + 2 && t < line.len() && line[t] != ']' {
            lemma_scan_close(line, t + 1);
        }
    }
}

/// The links of one line from position `i` on: each match found by the
/// non-greedy scan, its target and display trimmed, targets that trim to
/// nothing discarded, tagged with the 1-indexed line number `ln`.
pub open spec fn line_links_from(line: Seq<char>, i: int, ln: int) -> Seq<LinkSpec>
    decreases line.len() - i,
    when 0 <= i
    via line_links_from_dec
{
    if i >= line.len() {
        Seq::empty()
    } else {
        match link_at(line, i) {
            Some((t, d, end)) => {
                let tt = spec_trim(t);
                let rest = line_links_from(line, end, ln);
                if tt.len() == 0 {
                    rest
                } else {
                    seq![
                        LinkSpec {
                            target: tt,
                            display: match d {
                                Some(x) => Some(spec_trim(x)),
                                None => None,
                            },
                            line: ln,
                        }
                    ] + rest
                }
            },
            None => line_links_from(line, i + 1, ln),
        }
    }
}

#[via_fn]
proof fn line_links_from_dec(line: Seq<char>, i: int, ln: int) {
    lemma_link_at_bounds(line, i);
}

/// All links of a sequence of lines from line index `k` on, line numbers
/// being `k + 1` upward.
pub open spec fn links_of_lines(lines: Seq<Seq<char>>, k: int) -> Seq<LinkSpec>
    decreases lines.len() - k,
{
    if k < 0 || k >= lines.len() {
        Seq::empty()
    } else {
        line_links_from(lines[k], 0, k + 1) + links_of_lines(lines, k + 1)
    }
}

/// The links of a whole text: its lines scanned in order.
pub open spec fn spec_links(content: Seq<char>) -> Seq<LinkSpec> {
    links_of_lines(spec_lines(content), 0)
}

// ---------------------------------------------------------------------
// Metadata block
// ---------------------------------------------------------------------

/// A `---` marker line.
pub open spec fn is_dashes(line: Seq<char>) -> bool {
    line == seq!['-', '-', '-']
}

/// Whether line `k` closes a metadata block opened at line 0: it is a
/// marker line and the interior (lines 1 to `k - 1`) is non-empty text.
pub open spec fn fm_close_ok(lines: Seq<Seq<char>>, k: int) -> bool {
    2 <= k < lines.len() && is_dashes(lines[k]) && (k > 2 || lines[1].len() > 0)
}

/// Least closing line index at or after `k`, or `-1`.
pub open spec fn fm_close_from(lines: Seq<Seq<char>>, k: int) -> int
    decreases lines.len() - k,
{
    if k < 0 || k >= lines.len() {
        -1
    } else if fm_close_ok(lines, k) {
        k
    } else {
        fm_close_from(lines, k + 1)
    }
}

/// Index of the line closing the metadata block, or `-1` when the text
/// does not begin with one.
pub open spec fn fm_block_end(lines: Seq<Seq<char>>) -> int {
    if lines.len() > 0 && is_dashes(lines[0]) {
        fm_close_from(lines, 2)
    } else {
        -1
    }
}

pub open spec fn key_title() -> Seq<char> {
    seq!['t', 'i', 't', 'l', 'e', ':']
}

pub open spec fn key_created() -> Seq<char> {
    seq!['c', 'r', 'e', 'a', 't', 'e', 'd', ':']
}

pub open spec fn key_modified() -> Seq<char> {
    seq!['m', 'o', 'd', 'i', 'f', 'i', 'e', 'd', ':']
}

pub open spec fn key_tags() -> Seq<char> {
    seq!['t', 'a', 'g', 's', ':']
}

pub open spec fn starts_with(s: Seq<char>, p: Seq<char>) -> bool {
    p.len() <= s.len() && s.subrange(0, p.len() as int) == p
}

/// After a `key:` prefix of length `kl`, the line must end or continue
/// with whitespace for the line to be a scalar entry for that key.
pub open spec fn sep_ok(line: Seq<char>, kl: int) -> bool {
    line.len() == kl || (kl < line.len() && is_ws(line[kl]))
}

/// The scalar value after a `key:` prefix of length `kl`: the rest of
/// the line, trimmed.
pub open spec fn scalar_value(line: Seq<char>, kl: int) -> Seq<char> {
    spec_trim(line.subrange(kl, line.len() as int))
}

/// A non-empty value becomes `Some`, an empty one `None`.
pub open spec fn opt_value(v: Seq<char>) -> Option<Seq<char>> {
    if v.len() > 0 {
        Some(v)
    } else {
        None
    }
}

/// Whether the line has the shape of a key/value entry: a `':'` after a
/// non-empty key, followed by whitespace or the end of the line.
pub open spec fn has_kv_sep(s: Seq<char>) -> bool {
    exists|i: int| 1 <= i < s.len() && #[trigger] s[i] == ':' && (i + 1 == s.len() || is_ws(
        s[i + 1],
    ))
}

pub open spec fn empty_fm() -> FrontmatterSpec {
    FrontmatterSpec { title: None, created: None, modified: None, tags: Seq::empty() }
}

/// Interpret one non-blank interior line outside a tag list. Returns the
/// updated accumulator and whether a tag list starts, or `None` when the
/// line makes the whole block unparsable.
pub open spec fn meta_line_step(acc: FrontmatterSpec, line: Seq<char>) -> Option<
    (FrontmatterSpec, bool),
> {
    if line.len() == 0 {
        Some((acc, false))
    } else if is_ws(line[0]) {
        None
    } else if starts_with(line, key_tags()) && sep_ok(line, 5) {
        let rest = scalar_value(line, 5);
        if rest.len() == 0 {
            Some((FrontmatterSpec { tags: Seq::empty(), ..acc }, true))
        } else {
            // a value on the `tags:` line itself is a malformed tag list:
            // it degrades to the empty list
            Some((FrontmatterSpec { tags: Seq::empty(), ..acc }, false))
        }
    } else if starts_with(line, key_title()) && sep_ok(line, 6) {
        Some((FrontmatterSpec { title: opt_value(scalar_value(line, 6)), ..acc }, false))
    } else if starts_with(line, key_created()) && sep_ok(line, 8) {
        Some((FrontmatterSpec { created: opt_value(scalar_value(line, 8)), ..acc }, false))
    } else if starts_with(line, key_modified()) && sep_ok(line, 9) {
        Some((FrontmatterSpec { modified: opt_value(scalar_value(line, 9)), ..acc }, false))
    } else if has_kv_sep(line) {
        // an unrecognized key: ignored
        Some((acc, false))
    } else {
        None
    }
}

/// Interpret the interior lines from `i` on. `in_tags` says whether a
/// `tags:` list is being collected.
pub open spec fn parse_meta_from(
    lines: Seq<Seq<char>>,
    i: int,
    acc: FrontmatterSpec,
    in_tags: bool,
) -> Option<FrontmatterSpec>
    decreases lines.len() - i,
{
    if i < 0 || i >= lines.len() {
        Some(acc)
    } else {
        let line = lines[i];
        let t = spec_trim(line);
        if t.len() == 0 {
            parse_meta_from(lines, i + 1, acc, in_tags)
        } else if in_tags && t.len() >= 2 && t[0] == '-' && is_ws(t[1]) {
            let item = spec_trim(t.subrange(1, t.len() as int));
            parse_meta_from(
                lines,
                i + 1,
                FrontmatterSpec { tags: acc.tags.push(item), ..acc },
                true,
            )
        } else if in_tags && t.len() == 1 && t[0] == '-' {
            // a bare dash is a malformed list item: the tag list degrades
            // to the empty list
            parse_meta_from(lines, i + 1, FrontmatterSpec { tags: Seq::empty(), ..acc }, false)
        } else {
            match meta_line_step(acc, line) {
                Some((a, tg)) => parse_meta_from(lines, i + 1, a, tg),
                None => None,
            }
        }
    }
}

/// The metadata block of a text given as its lines: `None` when there is
/// no block or its interior is unparsable.
pub open spec fn spec_frontmatter(lines: Seq<Seq<char>>) -> Option<FrontmatterSpec> {
    let k = fm_block_end(lines);
    if k >= 0 {
        parse_meta_from(lines.subrange(1, k), 0, empty_fm(), false)
    } else {
        None
    }
}

/// The lines after the metadata block, or all lines when there is none.
pub open spec fn spec_body_lines(lines: Seq<Seq<char>>) -> Seq<Seq<char>> {
    let k = fm_block_end(lines);
    if k >= 0 {
        lines.subrange(k + 1, lines.len() as int)
    } else {
        lines
    }
}

// ---------------------------------------------------------------------
// Title
// ---------------------------------------------------------------------

/// The heading text of a trimmed line of the form `# ...`: the text
/// after the `#` and the whitespace run following it.
pub open spec fn heading_of(t: Seq<char>) -> Option<Seq<char>> {
    if t.len() >= 2 && t[0] == '#' && is_ws(t[1]) {
        let j = 1 + leading_ws(t.subrange(1, t.len() as int));
        if j < t.len() {
            Some(t.subrange(j, t.len() as int))
        } else {
            None
        }
    } else {
        None
    }
}

/// The filename with a trailing `.md` removed.
pub open spec fn fname_title(filename: Seq<char>) -> Seq<char> {
    if filename.len() >= 3 && filename.subrange(filename.len() - 3, filename.len() as int)
        == seq!['.', 'm', 'd'] {
        filename.subrange(0, filename.len() - 3)
    } else {
        filename
    }
}

/// Scan the body lines from `i` on for a title: the first single-`#`
/// heading wins; the first other non-blank, non-`#` line ends the scan;
/// `fallback` (the filename without its extension) is returned otherwise.
pub open spec fn title_from_lines(body: Seq<Seq<char>>, i: int, fallback: Seq<char>) -> Seq<char>
    decreases body.len() - i,
{
    if i < 0 || i >= body.len() {
        fallback
    } else {
        let t = spec_trim(body[i]);
        match heading_of(t) {
            Some(h) => h,
            None => if t.len() > 0 && t[0] != '#' {
                fallback
            } else {
                title_from_lines(body, i + 1, fallback)
            },
        }
    }
}

/// The resolved title: metadata title if present and non-empty, else the
/// first heading of the body, else the filename without its extension.
pub open spec fn spec_title(
    fm: Option<FrontmatterSpec>,
    body: Seq<Seq<char>>,
    filename: Seq<char>,
) -> Seq<char> {
    match fm {
        Some(f) => match f.title {
            Some(t) => if t.len() > 0 {
                t
            } else {
                title_from_lines(body, 0, fname_title(filename))
            },
            None => title_from_lines(body, 0, fname_title(filename)),
        },
        None => title_from_lines(body, 0, fname_title(filename)),
    }
}

/// The full parse of a note text under a filename.
pub open spec fn spec_parse(content: Seq<char>, filename: Seq<char>) -> NoteSpec {
    let lines = spec_lines(content);
    NoteSpec {
        title: spec_title(spec_frontmatter(lines), spec_body_lines(lines), filename),
        frontmatter: spec_frontmatter(lines),
        links: links_of_lines(lines, 0),
        word_count: spec_word_count(content),
        content: content,
    }
}

// ---------------------------------------------------------------------
// Laws of the parser
// ---------------------------------------------------------------------

/// Parsing is deterministic: the parse of a text under a filename is one
/// structure, so parsing the identical text again yields an identical
/// result.
pub proof fn lemma_parse_deterministic(
    content: Seq<char>,
    filename: Seq<char>,
    a: NoteSpec,
    b: NoteSpec,
)
    requires
        a == spec_parse(content, filename),
        b == spec_parse(content, filename),
    ensures
        a == b,
{
}

/// A non-empty `title` in the metadata block resolves the title,
/// whatever headings follow.
pub proof fn lemma_metadata_title_wins(
    content: Seq<char>,
    filename: Seq<char>,
    fm: FrontmatterSpec,
    t: Seq<char>,
)
    requires
        spec_frontmatter(spec_lines(content)) == Some(fm),
        fm.title == Some(t),
        t.len() > 0,
    ensures
        spec_parse(content, filename).title == t,
{
}

/// Scanning for a title passes over lines that trim to nothing.
proof fn lemma_title_skips_blanks(body: Seq<Seq<char>>, i: int, fallback: Seq<char>)
    requires
        0 <= i <= body.len(),
        forall|j: int| 0 <= j < i ==> spec_trim(#[trigger] body[j]).len() == 0,
    ensures
        title_from_lines(body, 0, fallback) == title_from_lines(body, i, fallback),
    decreases i,
{
    if i > 0 {
        lemma_title_skips_blanks(body, i - 1, fallback);
        assert(spec_trim(body[i - 1]).len() == 0);
    }
}

/// With no metadata block, the first single-`#` heading preceded only by
/// blank lines resolves the title.
pub proof fn lemma_heading_title(content: Seq<char>, filename: Seq<char>, i: int, h: Seq<char>)
    requires
        fm_block_end(spec_lines(content)) == -1,
        0 <= i < spec_lines(content).len(),
        forall|j: int| 0 <= j < i ==> spec_trim(#[trigger] spec_lines(content)[j]).len() == 0,
        heading_of(spec_trim(spec_lines(content)[i])) == Some(h),
    ensures
        spec_parse(content, filename).title == h,
{
    let lines = spec_lines(content);
    lemma_title_skips_blanks(lines, i, fname_title(filename));
}

/// With neither a metadata block nor any heading, the title is the
/// filename with its extension removed.
pub proof fn lemma_filename_title(content: Seq<char>, filename: Seq<char>)
    requires
        fm_block_end(spec_lines(content)) == -1,
        forall|j: int|
            0 <= j < spec_lines(content).len() ==> heading_of(
                spec_trim(#[trigger] spec_lines(content)[j]),
            ) is None,
    ensures
        spec_parse(content, filename).title == fname_title(filename),
{
    let lines = spec_lines(content);
    lemma_no_heading_no_title(lines, 0, fname_title(filename));
}

proof fn lemma_no_heading_no_title(body: Seq<Seq<char>>, i: int, fallback: Seq<char>)
    requires
        0 <= i <= body.len(),
        forall|j: int|
            0 <= j < body.len() ==> heading_of(spec_trim(#[trigger] body[j])) is None,
    ensures
        title_from_lines(body, i, fallback) == fallback,
    decreases body.len() - i,
{
    if i < body.len() {
        lemma_no_heading_no_title(body, i + 1, fallback);
    }
}

/// If no `']'` or `'|'` occurs in `[j, t)` and `t` is the length or holds
/// one, then `scan_tgt_end(line, j) == t`.
proof fn lemma_scan_tgt_end_char(line: Seq<char>, j: int, t: int)
    requires
        0 <= j <= t <= line.len(),
        forall|k: int| j <= k < t ==> line[k] != ']' && line[k] != '|',
        t < line.len() ==> line[t] == ']' || line[t] == '|',
    ensures
        scan_tgt_end(line, j) == t,
    decreases t - j,
{
    if j < t {
        lemma_scan_tgt_end_char(line, j + 1, t);
    }
}

/// If no `']'` occurs in `[j, d)` and `d` is the length or holds one,
/// then `scan_close(line, j) == d`.
proof fn lemma_scan_close_char(line: Seq<char>, j: int, d: int)
    requires
        0 <= j <= d <= line.len(),
        forall|k: int| j <= k < d ==> line[k] != ']',
        d < line.len() ==> line[d] == ']',
    ensures
        scan_close(line, j) == d,
    decreases d - j,
{
    if j < d {
        lemma_scan_close_char(line, j + 1, d);
    }
}

// ---------------------------------------------------------------------
// Executable metadata parsing
// ---------------------------------------------------------------------

fn is_dashes_exec(line: &Vec<char>) -> (r: bool)
    ensures
        r == is_dashes(line@),
{
    let r = line.len() == 3 && line[0] == '-' && line[1] == '-' && line[2] == '-';
    proof {
        if r {
            assert(line@ =~= seq!['-', '-', '-']);
        } else {
            assert(line@ != seq!['-', '-', '-']) by {
                if line@.len() == 3 {
                    assert(seq!['-', '-', '-'][0] == '-');
                    assert(seq!['-', '-', '-'][1] == '-');
                    assert(seq!['-', '-', '-'][2] == '-');
                }
            }
        }
    }
    r
}

pub(crate) fn starts_with_exec(line: &Vec<char>, p: &Vec<char>) -> (r: bool)
    ensures
        r == starts_with(line@, p@),
{
    let n = p.len();
    if n > line.len() {
        return false;
    }
    let mut i: usize = 0;
    while i < n
        invariant
            0 <= i <= n,
            n == p@.len() <= line@.len(),
            forall|k: int| 0 <= k < i ==> line@[k] == p@[k],
        decreases n - i,
    {
        if line[i] != p[i] {
            proof {
                assert(line@.subrange(0, n as int)[i as int] != p@[i as int]);
            }
            return false;
        }
        i = i + 1;
    }
    proof {
        assert(line@.subrange(0, n as int) =~= p@);
    }
    true
}

fn has_kv_sep_exec(line: &Vec<char>) -> (r: bool)
    ensures
        r == has_kv_sep(line@),
{
    let n = line.len();
    let mut i: usize = 1;
    while i < n
        invariant
            1 <= i <= n || n < 1,
            n == line@.len(),
            forall|k: int|
                1 <= k < i ==> !(#[trigger] line@[k] == ':' && (k + 1 == n || is_ws(
                    line@[k + 1],
                ))),
        decreases n - i,
    {
        if line[i] == ':' && (i + 1 == n || ws_char(line[i + 1])) {
            proof {
                assert(1 <= (i as int) && (i as int) < line@.len() && line@[i as int] == ':' && (
                i + 1 == line@.len() || is_ws(line@[i + 1])));
            }
            return true;
        }
        i = i + 1;
    }
    false
}

/// The accumulating state of the interior parse, in executable form.
struct MetaAcc {
    title: Option<String>,
    created: Option<String>,
    modified: Option<String>,
    tags: Vec<String>,
}

impl View for MetaAcc {
    type V = FrontmatterSpec;

    closed spec fn view(&self) -> FrontmatterSpec {
        FrontmatterSpec {
            title: view_opt_string(self.title),
            created: view_opt_string(self.created),
            modified: view_opt_string(self.modified),
            tags: self.tags@.map_values(|t: String| t@),
        }
    }
}

/// The scalar value after a key prefix of length `kl`, as an optional
/// string.
fn scalar_value_exec(line: &Vec<char>, kl: usize) -> (r: Option<String>)
    requires
        kl <= line@.len(),
    ensures
        view_opt_string(r) == opt_value(scalar_value(line@, kl as int)),
{
    let raw = crate::text::copy_range(line, kl, line.len());
    let v = trim_chars(&raw);
    if v.len() > 0 {
        Some(string_from_chars(&v))
    } else {
        None
    }
}

fn key_title_vec() -> (r: Vec<char>)
    ensures
        r@ == key_title(),
{
    let mut r: Vec<char> = Vec::new();
    r.push('t');
    r.push('i');
    r.push('t');
    r.push('l');
    r.push('e');
    r.push(':');
    proof {
        assert(r@ =~= key_title());
    }
    r
}

fn key_created_vec() -> (r: Vec<char>)
    ensures
        r@ == key_created(),
{
    let mut r: Vec<char> = Vec::new();
    r.push('c');
    r.push('r');
    r.push('e');
    r.push('a');
    r.push('t');
    r.push('e');
    r.push('d');
    r.push(':');
    proof {
        assert(r@ =~= key_created());
    }
    r
}

fn key_modified_vec() -> (r: Vec<char>)
    ensures
        r@ == key_modified(),
{
    let mut r: Vec<char> = Vec::new();
    r.push('m');
    r.push('o');
    r.push('d');
    r.push('i');
    r.push('f');
    r.push('i');
    r.push('e');
    r.push('d');
    r.push(':');
    proof {
        assert(r@ =~= key_modified());
    }
    r
}

fn key_tags_vec() -> (r: Vec<char>)
    ensures
        r@ == key_tags(),
{
    let mut r: Vec<char> = Vec::new();
    r.push('t');
    r.push('a');
    r.push('g');
    r.push('s');
    r.push(':');
    proof {
        assert(r@ =~= key_tags());
    }
    r
}

fn sep_ok_exec(line: &Vec<char>, kl: usize) -> (r: bool)
    requires
        kl <= line@.len(),
    ensures
        r == sep_ok(line@, kl as int),
{
    line.len() == kl || ws_char(line[kl])
}

/// Executable mirror of `meta_line_step`.
fn meta_step_exec(acc: MetaAcc, line: &Vec<char>) -> (r: Option<(MetaAcc, bool)>)
    ensures
        match r {
            Some((a, tg)) => meta_line_step(acc@, line@) == Some((a@, tg)),
            None => meta_line_step(acc@, line@) is None,
        },
{
    if line.len() == 0 {
        return Some((acc, false));
    }
    if ws_char(line[0]) {
        return None;
    }
    let ktags = key_tags_vec();
    if starts_with_exec(line, &ktags) && sep_ok_exec(line, 5) {
        let rest = scalar_value_exec(line, 5);
        let is_list = rest.is_none();
        let a = MetaAcc { tags: Vec::new(), ..acc };
        proof {
            assert(a@.tags =~= Seq::<Seq<char>>::empty());
        }
        return Some((a, is_list));
    }
    let ktitle = key_title_vec();
    if starts_with_exec(line, &ktitle) && sep_ok_exec(line, 6) {
        let v = scalar_value_exec(line, 6);
        return Some((MetaAcc { title: v, ..acc }, false));
    }
    let kcreated = key_created_vec();
    if starts_with_exec(line, &kcreated) && sep_ok_exec(line, 8) {
        let v = scalar_value_exec(line, 8);
        return Some((MetaAcc { created: v, ..acc }, false));
    }
    let kmodified = key_modified_vec();
    if starts_with_exec(line, &kmodified) && sep_ok_exec(line, 9) {
        let v = scalar_value_exec(line, 9);
        return Some((MetaAcc { modified: v, ..acc }, false));
    }
    if has_kv_sep_exec(line) {
        return Some((acc, false));
    }
    None
}

/// Least metadata-closing line index at or after `k`, as found by a
/// forward scan.
proof fn lemma_fm_close_char(lines: Seq<Seq<char>>, k: int, m: int)
    requires
        0 <= k <= m <= lines.len(),
        forall|j: int| k <= j < m ==> !fm_close_ok(lines, j),
        m < lines.len() ==> fm_close_ok(lines, m),
    ensures
        fm_close_from(lines, k) == if m < lines.len() {
            m
        } else {
            -1
        },
    decreases m - k,
{
    if k < m {
        lemma_fm_close_char(lines, k + 1, m);
    }
}

/// Parse the metadata block out of the lines of a text. Returns the
/// block (or `None`) and the index of the first body line.
fn parse_frontmatter_lines(lines: &Vec<Vec<char>>) -> (r: (Option<Frontmatter>, usize))
    ensures
        ({
            let lv = lines@.map_values(|l: Vec<char>| l@);
            &&& match r.0 {
                Some(f) => spec_frontmatter(lv) == Some(f@),
                None => spec_frontmatter(lv) is None,
            }
            &&& r.1 as int == if fm_block_end(lv) >= 0 {
                fm_block_end(lv) + 1
            } else {
                0
            }
            &&& r.1 <= lines@.len()
        }),
{
    let ghost lv = lines@.map_values(|l: Vec<char>| l@);
    let n = lines.len();
    if n == 0 || !is_dashes_exec(&lines[0]) {
        return (None, 0);
    }
    proof {
        assert(lv[0] == lines@[0]@);
    }
    // find the closing marker line
    let mut k: usize = 2;
    let mut close: usize = n;
    while k < n && close == n
        invariant
            2 <= k,
            k <= n || k == 2,
            n == lines@.len(),
            lv == lines@.map_values(|l: Vec<char>| l@),
            forall|j: int| 2 <= j < k ==> !fm_close_ok(lv, j),
            close == n || (close == k && k < n && fm_close_ok(lv, k as int)),
        decreases n - k, (if close == n { 1int } else { 0int }),
    {
        let dash = is_dashes_exec(&lines[k]);
        let interior_ok = k > 2 || lines[1].len() > 0;
        proof {
            assert(lv[k as int] == lines@[k as int]@);
            assert(lv[1] == lines@[1]@);
        }
        if dash && interior_ok {
            close = k;
            proof {
                assert(fm_close_ok(lv, k as int));
            }
        } else {
            proof {
                assert(!fm_close_ok(lv, k as int));
            }
            k = k + 1;
        }
    }
    if close == n {
        proof {
            if n >= 2 {
                lemma_fm_close_char(lv, 2, n as int);
            }
            assert(fm_block_end(lv) == -1);
        }
        return (None, 0);
    }
    proof {
        lemma_fm_close_char(lv, 2, close as int);
        assert(fm_block_end(lv) == close as int);
    }
    let ghost interior = lv.subrange(1, close as int);
    // parse the interior
    let mut acc = MetaAcc { title: None, created: None, modified: None, tags: Vec::new() };
    let mut in_tags = false;
    let mut i: usize = 1;
    proof {
        assert(acc@ =~= empty_fm());
        assert(acc@.tags =~= Seq::<Seq<char>>::empty());
    }
    while i < close
        invariant
            1 <= i <= close < n,
            n == lines@.len(),
            lv == lines@.map_values(|l: Vec<char>| l@),
            interior == lv.subrange(1, close as int),
            fm_block_end(lv) == close as int,
            parse_meta_from(interior, 0, empty_fm(), false) == parse_meta_from(
                interior,
                i - 1,
                acc@,
                in_tags,
            ),
        decreases close - i,
    {
        proof {
            assert(interior[i - 1] == lv[i as int]);
            assert(lv[i as int] == lines@[i as int]@);
        }
        let tl = trim_chars(&lines[i]);
        if tl.len() == 0 {
            i = i + 1;
            continue;
        }
        if in_tags && tl.len() >= 2 && tl[0] == '-' && ws_char(tl[1]) {
            let rest = crate::text::copy_range(&tl, 1, tl.len());
            let item = trim_chars(&rest);
            let item_s = string_from_chars(&item);
            let ghost pre_tags = acc@.tags;
            acc.tags.push(item_s);
            proof {
                assert(acc@.tags =~= pre_tags.push(item@));
            }
            i = i + 1;
            continue;
        }
        if in_tags && tl.len() == 1 && tl[0] == '-' {
            acc.tags = Vec::new();
            in_tags = false;
            proof {
                assert(acc@.tags =~= Seq::<Seq<char>>::empty());
            }
            i = i + 1;
            continue;
        }
        match meta_step_exec(acc, &lines[i]) {
            Some((a, tg)) => {
                acc = a;
                in_tags = tg;
            },
            None => {
                proof {
                    assert(parse_meta_from(interior, 0, empty_fm(), false) is None);
                    assert(spec_frontmatter(lv) is None);
                }
                return (None, close + 1);
            },
        }
        i = i + 1;
    }
    proof {
        assert(parse_meta_from(interior, close - 1, acc@, in_tags) == Some(acc@));
        assert(spec_frontmatter(lv) == Some(acc@));
    }
    let fm = Frontmatter {
        title: acc.title,
        created: acc.created,
        modified: acc.modified,
        tags: acc.tags,
    };
    (Some(fm), close + 1)
}

// ---------------------------------------------------------------------
// Executable title resolution
// ---------------------------------------------------------------------

/// The filename with a trailing `.md` removed, as characters.
fn fname_title_exec(filename: &str) -> (r: Vec<char>)
    ensures
        r@ == fname_title(filename@),
{
    let chars = chars_of(filename);
    let n = chars.len();
    if n >= 3 && chars[n - 3] == '.' && chars[n - 2] == 'm' && chars[n - 1] == 'd' {
        proof {
            assert(filename@.subrange(n - 3, n as int) =~= seq!['.', 'm', 'd']);
        }
        crate::text::copy_range(&chars, 0, n - 3)
    } else {
        proof {
            if filename@.len() >= 3 {
                let suf = filename@.subrange(n - 3, n as int);
                if n >= 3 && suf == seq!['.', 'm', 'd'] {
                    assert(suf[0] == '.' && suf[1] == 'm' && suf[2] == 'd');
                    assert(chars@[n - 3] == suf[0]);
                    assert(chars@[n - 2] == suf[1]);
                    assert(chars@[n - 1] == suf[2]);
                }
            }
        }
        chars
    }
}

/// The heading text of a trimmed line, if it is a single-`#` heading.
fn heading_of_exec(t: &Vec<char>) -> (r: Option<Vec<char>>)
    ensures
        match r {
            Some(h) => heading_of(t@) == Some(h@),
            None => heading_of(t@) is None,
        },
{
    let n = t.len();
    if n >= 2 && t[0] == '#' && ws_char(t[1]) {
        let mut m: usize = 1;
        while m < n && ws_char(t[m])
            invariant
                1 <= m <= n,
                n == t@.len(),
                forall|k: int| 1 <= k < m ==> is_ws(t@[k]),
            decreases n - m,
        {
            m = m + 1;
        }
        proof {
            let sub = t@.subrange(1, n as int);
            assert(forall|k: int| 0 <= k < m - 1 ==> sub[k] == t@[k + 1] && is_ws(sub[k]));
            if m < n {
                assert(sub[m - 1] == t@[m as int]);
            }
            crate::text::lemma_leading_ws_char(sub, m - 1);
            assert(leading_ws(sub) == m - 1);
        }
        if m < n {
            Some(crate::text::copy_range(t, m, n))
        } else {
            None
        }
    } else {
        None
    }
}

/// Scan the lines from `start` on for the title, with the filename (as
/// characters) as the fallback.
fn title_scan(lines: &Vec<Vec<char>>, start: usize, fallback: &Vec<char>) -> (r: Vec<char>)
    requires
        start <= lines@.len(),
    ensures
        r@ == title_from_lines(
            lines@.map_values(|l: Vec<char>| l@).subrange(start as int, lines@.len() as int),
            0,
            fallback@,
        ),
{
    let ghost lv = lines@.map_values(|l: Vec<char>| l@);
    let ghost body = lv.subrange(start as int, lines@.len() as int);
    let n = lines.len();
    let mut i: usize = start;
    while i < n
        invariant
            start <= i <= n,
            n == lines@.len(),
            lv == lines@.map_values(|l: Vec<char>| l@),
            body == lv.subrange(start as int, n as int),
            title_from_lines(body, 0, fallback@) == title_from_lines(
                body,
                i - start,
                fallback@,
            ),
        decreases n - i,
    {
        proof {
            assert(body[i - start] == lv[i as int]);
            assert(lv[i as int] == lines@[i as int]@);
        }
        let t = trim_chars(&lines[i]);
        match heading_of_exec(&t) {
            Some(h) => {
                return h;
            },
            None => {
                if t.len() > 0 && t[0] != '#' {
                    let r = crate::text::copy_range(fallback, 0, fallback.len());
                    proof {
                        assert(r@ =~= fallback@);
                    }
                    return r;
                }
            },
        }
        i = i + 1;
    }
    let r = crate::text::copy_range(fallback, 0, fallback.len());
    proof {
        assert(r@ =~= fallback@);
    }
    r
}

/// Spec-level view of a vector of extracted links.
pub open spec fn links_view(v: Seq<ExtractedLink>) -> Seq<LinkSpec> {
    v.map_values(|l: ExtractedLink| l@)
}

/// Scan one line for wiki-links, `ln` being its 1-indexed line number.
fn links_in_line(line: &Vec<char>, ln: usize) -> (r: Vec<ExtractedLink>)
    requires
        1 <= ln,
    ensures
        links_view(r@) == line_links_from(line@, 0, ln as int),
{
    let n = line.len();
    let mut r: Vec<ExtractedLink> = Vec::new();
    let mut i: usize = 0;
    while i < n
        invariant
            0 <= i <= n,
            n == line@.len(),
            1 <= ln,
            line_links_from(line@, 0, ln as int) =~= links_view(r@) + line_links_from(
                line@,
                i as int,
                ln as int,
            ),
        decreases n - i,
    {
        let ghost pre = links_view(r@);
        if i + 1 < n && line[i] == '[' && line[i + 1] == '[' {
            let mut t: usize = i + 2;
            while t < n && line[t] != ']' && line[t] != '|'
                invariant
                    i + 2 <= t <= n,
                    n == line@.len(),
                    forall|k: int| i + 2 <= k < t ==> line@[k] != ']' && line@[k] != '|',
                decreases n - t,
            {
                t = t + 1;
            }
            proof {
                lemma_scan_tgt_end_char(line@, i + 2, t as int);
            }
            let mut advanced = false;
            if t == i + 2 || t == n {
                proof {
                    assert(link_at(line@, i as int) is None);
                }
            } else if line[t] == ']' {
                if t + 1 < n && line[t + 1] == ']' {
                    let raw = crate::text::copy_range(line, i + 2, t);
                    let tgt = trim_chars(&raw);
                    proof {
                        assert(link_at(line@, i as int) == Some(
                            (line@.subrange(i + 2, t as int), None::<Seq<char>>, t + 2 as int),
                        ));
                    }
                    if tgt.len() > 0 {
                        let target = string_from_chars(&tgt);
                        r.push(ExtractedLink { target, display: None, line_number: ln });
                        proof {
                            assert(links_view(r@) =~= pre + seq![
                                LinkSpec {
                                    target: spec_trim(line@.subrange(i + 2, t as int)),
                                    display: None,
                                    line: ln as int,
                                },
                            ]);
                        }
                    }
                    i = t + 2;
                    advanced = true;
                } else {
                    proof {
                        assert(link_at(line@, i as int) is None);
                    }
                }
            } else {
                let mut d: usize = t + 1;
                while d < n && line[d] != ']'
                    invariant
                        t + 1 <= d <= n,
                        n == line@.len(),
                        forall|k: int| t + 1 <= k < d ==> line@[k] != ']',
                    decreases n - d,
                {
                    d = d + 1;
                }
                proof {
                    lemma_scan_close_char(line@, t + 1, d as int);
                }
                if d == t + 1 || d == n {
                    proof {
                        assert(link_at(line@, i as int) is None);
                    }
                } else if d + 1 < n && line[d + 1] == ']' {
                    let raw = crate::text::copy_range(line, i + 2, t);
                    let tgt = trim_chars(&raw);
                    let rawd = crate::text::copy_range(line, t + 1, d);
                    let disp = trim_chars(&rawd);
                    proof {
                        assert(link_at(line@, i as int) == Some(
                            (
                                line@.subrange(i + 2, t as int),
                                Some(line@.subrange(t + 1, d as int)),
                                d + 2 as int,
                            ),
                        ));
                    }
                    if tgt.len() > 0 {
                        let target = string_from_chars(&tgt);
                        let display = string_from_chars(&disp);
                        r.push(
                            ExtractedLink { target, display: Some(display), line_number: ln },
                        );
                        proof {
                            assert(links_view(r@) =~= pre + seq![
                                LinkSpec {
                                    target: spec_trim(line@.subrange(i + 2, t as int)),
                                    display: Some(spec_trim(line@.subrange(t + 1, d as int))),
                                    line: ln as int,
                                },
                            ]);
                        }
                    }
                    i = d + 2;
                    advanced = true;
                } else {
                    proof {
                        assert(link_at(line@, i as int) is None);
                    }
                }
            }
            if !advanced {
                i = i + 1;
            }
        } else {
            proof {
                assert(link_at(line@, i as int) is None);
            }
            i = i + 1;
        }
    }
    proof {
        assert(line_links_from(line@, i as int, ln as int) =~= Seq::<LinkSpec>::empty());
        assert(links_view(r@) =~= line_links_from(line@, 0, ln as int));
    }
    r
}

/// Parse the metadata block of a note text. Returns the block (`None`
/// when there is none or its interior is unparsable) and the index of
/// the first line of the body.
pub fn parse_frontmatter(content: &str) -> (r: (Option<Frontmatter>, usize))
    ensures
        match r.0 {
            Some(f) => spec_frontmatter(spec_lines(content@)) == Some(f@),
            None => spec_frontmatter(spec_lines(content@)) is None,
        },
        r.1 as int == if fm_block_end(spec_lines(content@)) >= 0 {
            fm_block_end(spec_lines(content@)) + 1
        } else {
            0
        },
{
    let chars = chars_of(content);
    let lines = split_lines(&chars);
    parse_frontmatter_lines(&lines)
}

/// Resolve the title of a note from its metadata, its body text and its
/// filename, by the precedence `metadata title`, `first heading`,
/// `filename without extension`.
pub fn determine_title(frontmatter: &Option<Frontmatter>, body: &str, filename: &str) -> (r:
    String)
    ensures
        r@ == spec_title(
            match frontmatter {
                Some(f) => Some(f@),
                None => None,
            },
            spec_lines(body@),
            filename@,
        ),
{
    match frontmatter {
        Some(f) => match &f.title {
            Some(t) => {
                if t.unicode_len() > 0 {
                    let c = chars_of(t.as_str());
                    return string_from_chars(&c);
                }
            },
            None => {},
        },
        None => {},
    }
    let chars = chars_of(body);
    let lines = split_lines(&chars);
    let fallback = fname_title_exec(filename);
    proof {
        assert(lines@.map_values(|l: Vec<char>| l@).subrange(0, lines@.len() as int)
            =~= lines@.map_values(|l: Vec<char>| l@));
    }
    let t = title_scan(&lines, 0, &fallback);
    string_from_chars(&t)
}

/// Parse a note: title, metadata block, wiki-links, word count.
pub fn parse_note(content: &str, filename: &str) -> (r: ParsedNote)
    ensures
        r@ == spec_parse(content@, filename@),
{
    let chars = chars_of(content);
    let lines = split_lines(&chars);
    let ghost lv = lines@.map_values(|l: Vec<char>| l@);
    let (frontmatter, body_start) = parse_frontmatter_lines(&lines);
    let fallback = fname_title_exec(filename);
    let scanned = title_scan(&lines, body_start, &fallback);
    proof {
        assert(spec_body_lines(lv) =~= lv.subrange(body_start as int, lv.len() as int));
    }
    let title = match &frontmatter {
        Some(f) => match &f.title {
            Some(t) => {
                if t.unicode_len() > 0 {
                    let c = chars_of(t.as_str());
                    string_from_chars(&c)
                } else {
                    string_from_chars(&scanned)
                }
            },
            None => string_from_chars(&scanned),
        },
        None => string_from_chars(&scanned),
    };
    let links = extract_links(content);
    let word_count = count_words_chars(&chars);
    let owned = String::from_str(content);
    let r = ParsedNote { title, frontmatter, links, word_count, content: owned };
    proof {
        assert(r@ =~= spec_parse(content@, filename@));
    }
    r
}

/// Extract all wiki-links of a text, with their 1-indexed line numbers.
pub fn extract_links(content: &str) -> (r: Vec<ExtractedLink>)
    ensures
        links_view(r@) == spec_links(content@),
{
    let chars = chars_of(content);
    let lines = split_lines(&chars);
    let ghost llines = spec_lines(content@);
    let mut r: Vec<ExtractedLink> = Vec::new();
    let mut k: usize = 0;
    while k < lines.len()
        invariant
            0 <= k <= lines@.len(),
            lines@.map_values(|l: Vec<char>| l@) == llines,
            llines == spec_lines(chars@),
            chars@ == content@,
            spec_links(content@) =~= links_view(r@) + links_of_lines(llines, k as int),
        decreases lines@.len() - k,
    {
        let ghost pre = links_view(r@);
        let mut found = links_in_line(&lines[k], k + 1);
        proof {
            assert(lines@.map_values(|l: Vec<char>| l@)[k as int] == lines@[k as int]@);
            assert(links_view(found@) == line_links_from(llines[k as int], 0, k + 1));
        }
        r.append(&mut found);
        proof {
            assert(links_view(r@) =~= pre + line_links_from(llines[k as int], 0, k + 1));
        }
        k = k + 1;
    }
    proof {
        assert(links_of_lines(llines, k as int) =~= Seq::<LinkSpec>::empty());
        assert(links_view(r@) =~= spec_links(content@));
    }
    r
}

} // verus!
