//! The search engine over the shadow full-text records: maintaining one
//! record per note, escaping raw query text into a single quoted
//! phrase, and the literal phrase search itself.
//!
//! A query matches a note when its trimmed text occurs, after ASCII
//! case folding, in the record's title and body. The rank is the
//! negated occurrence count — lower is better — and results order by
//! rank, ties by ascending note identifier, so a fixed corpus and query
//! always rank the same way.

use vstd::prelude::*;
use crate::store::{
    Store, StoreModel, FtsRow, FtsR, NoteR, wf, lemma_first_at_char,
    lemma_first_where_props, note_idx_by_id, SortOrd, sort_rows, sorted_rows,
};
use crate::text::{
    fold, fold_chars, chars_of, chars_eq, spec_trim, trim_chars, string_from_chars, copy_range,
};
use crate::notes::find_note_by_id;
use crate::tags::clip_count;

verus! {

// ---------------------------------------------------------------------
// Query escaping
// ---------------------------------------------------------------------

/// `s` with every `"` doubled, from index `i` on.
pub open spec fn dup_quotes(s: Seq<char>, i: int) -> Seq<char>
    decreases s.len() - i,
{
    if i < 0 || i >= s.len() {
        Seq::empty()
    } else if s[i] == '"' {
        seq!['"', '"'] + dup_quotes(s, i + 1)
    } else {
        seq![s[i]] + dup_quotes(s, i + 1)
    }
}

/// The escaped form of a raw query: trimmed, internal quotes doubled,
/// wrapped in quotes as one phrase; empty when the query trims to
/// nothing.
pub open spec fn spec_escape(q: Seq<char>) -> Seq<char> {
    let t = spec_trim(q);
    if t.len() == 0 {
        Seq::empty()
    } else {
        seq!['"'] + dup_quotes(t, 0) + seq!['"']
    }
}

/// Escape a raw query so that it reads as a single quoted phrase:
/// the text is trimmed, internal quote characters are doubled, and the
/// whole is wrapped in quotes. A query that trims to nothing escapes to
/// the empty string.
pub fn escape_fts_query(query: &str) -> (r: String)
    ensures
        r@ == spec_escape(query@),
{
    let qc = chars_of(query);
    let t = trim_chars(&qc);
    if t.len() == 0 {
        let out: Vec<char> = Vec::new();
        proof {
            assert(out@ =~= spec_escape(query@));
        }
        return string_from_chars(&out);
    }
    let n = t.len();
    let mut out: Vec<char> = Vec::new();
    out.push('"');
    let mut i: usize = 0;
    while i < n
        invariant
            0 <= i <= n,
            n == t@.len(),
            t@ == spec_trim(qc@),
            out@ =~= seq!['"'] + dup_quotes(t@, 0).subrange(
                0,
                out@.len() - 1,
            ),
            dup_quotes(t@, 0) =~= out@.subrange(1, out@.len() as int) + dup_quotes(t@, i as int),
        decreases n - i,
    {
        let ghost pre = out@;
        if t[i] == '"' {
            out.push('"');
            out.push('"');
            proof {
                assert(dup_quotes(t@, i as int) == seq!['"', '"'] + dup_quotes(t@, i + 1));
                assert(out@.subrange(1, out@.len() as int) =~= pre.subrange(
                    1,
                    pre.len() as int,
                ) + seq!['"', '"']);
                assert(dup_quotes(t@, 0) =~= out@.subrange(1, out@.len() as int) + dup_quotes(
                    t@,
                    i + 1,
                ));
                assert(out@ =~= seq!['"'] + dup_quotes(t@, 0).subrange(0, out@.len() - 1));
            }
        } else {
            out.push(t[i]);
            proof {
                assert(dup_quotes(t@, i as int) == seq![t@[i as int]] + dup_quotes(t@, i + 1));
                assert(out@.subrange(1, out@.len() as int) =~= pre.subrange(
                    1,
                    pre.len() as int,
                ) + seq![t@[i as int]]);
                assert(dup_quotes(t@, 0) =~= out@.subrange(1, out@.len() as int) + dup_quotes(
                    t@,
                    i + 1,
                ));
                assert(out@ =~= seq!['"'] + dup_quotes(t@, 0).subrange(0, out@.len() - 1));
            }
        }
        i = i + 1;
    }
    out.push('"');
    proof {
        assert(dup_quotes(t@, i as int) =~= Seq::<char>::empty());
        assert(out@ =~= spec_escape(query@));
    }
    string_from_chars(&out)
}

// ---------------------------------------------------------------------
// Shadow records
// ---------------------------------------------------------------------

/// The shadow records other than the one for note `nid`, from `i` on.
pub open spec fn fts_without(fts: Seq<FtsR>, nid: i64, i: int) -> Seq<FtsR>
    decreases fts.len() - i,
{
    if i < 0 || i >= fts.len() {
        Seq::empty()
    } else {
        let rest = fts_without(fts, nid, i + 1);
        if fts[i].note_id == nid {
            rest
        } else {
            seq![fts[i]] + rest
        }
    }
}

/// Survivors come from records of other notes and stay pairwise
/// distinct.
pub(crate) proof fn lemma_fts_without_props(fts: Seq<FtsR>, nid: i64, i: int)
    requires
        0 <= i <= fts.len(),
        forall|a: int, b: int|
            0 <= a < b < fts.len() ==> (#[trigger] fts[a]).note_id != (
            #[trigger] fts[b]).note_id,
    ensures
        ({
            let r = fts_without(fts, nid, i);
            &&& forall|x: int| 0 <= x < r.len() ==> (#[trigger] r[x]).note_id != nid
            &&& forall|x: int, y: int|
                0 <= x < y < r.len() ==> (#[trigger] r[x]).note_id != (
                #[trigger] r[y]).note_id
        }),
    decreases fts.len() - i,
{
    if i < fts.len() {
        lemma_fts_without_props(fts, nid, i + 1);
        let r = fts_without(fts, nid, i);
        let rest = fts_without(fts, nid, i + 1);
        if fts[i].note_id != nid {
            assert(r == seq![fts[i]] + rest);
            assert(r[0] == fts[i]);
            assert(forall|x: int| 1 <= x < r.len() ==> r[x] == rest[x - 1]);
            assert forall|x: int, y: int| 0 <= x < y < r.len() implies (
            #[trigger] r[x]).note_id != (#[trigger] r[y]).note_id by {
                if x == 0 {
                    lemma_fts_member(fts, nid, i + 1, y - 1);
                } else {
                    assert(r[x] == rest[x - 1] && r[y] == rest[y - 1]);
                }
            }
            assert forall|x: int| 0 <= x < r.len() implies (#[trigger] r[x]).note_id != nid by {
                if x > 0 {
                    assert(r[x] == rest[x - 1]);
                }
            }
        }
    }
}

/// Every survivor is one of the later input records.
proof fn lemma_fts_member(fts: Seq<FtsR>, nid: i64, i: int, x: int)
    requires
        0 <= i <= fts.len(),
        0 <= x < fts_without(fts, nid, i).len(),
    ensures
        exists|j: int| i <= j < fts.len() && fts_without(fts, nid, i)[x] == #[trigger] fts[j],
    decreases fts.len() - i,
{
    let r = fts_without(fts, nid, i);
    let rest = fts_without(fts, nid, i + 1);
    if i < fts.len() {
        if fts[i].note_id != nid {
            if x == 0 {
                assert(r[0] == fts[i]);
            } else {
                lemma_fts_member(fts, nid, i + 1, x - 1);
                let j = choose|j: int| i + 1 <= j < fts.len() && rest[x - 1] == #[trigger] fts[j];
                assert(r[x] == fts[j]);
            }
        } else {
            lemma_fts_member(fts, nid, i + 1, x);
            let j = choose|j: int| i + 1 <= j < fts.len() && rest[x] == #[trigger] fts[j];
            assert(r[x] == fts[j]);
        }
    }
}

/// Well-formedness only reads the shadow table's distinctness: a store
/// differing from a well-formed one just there is well-formed again.
proof fn lemma_wf_fts_only(m: StoreModel, m2: StoreModel)
    requires
        wf(m),
        m2.notes == m.notes,
        m2.links == m.links,
        m2.tags == m.tags,
        m2.note_tags == m.note_tags,
        m2.next_note_id == m.next_note_id,
        m2.next_link_id == m.next_link_id,
        m2.next_tag_id == m.next_tag_id,
        forall|a: int, b: int|
            0 <= a < b < m2.fts.len() ==> (#[trigger] m2.fts[a]).note_id != (
            #[trigger] m2.fts[b]).note_id,
    ensures
        wf(m2),
{
    assert forall|id: i64| #[trigger] crate::store::note_id_of(m, id) implies
        crate::store::note_id_of(m2, id) by {
        let w = choose|w: int| 0 <= w < m.notes.len() && (#[trigger] m.notes[w]).id == id;
        assert(m2.notes[w].id == id);
    }
    assert forall|i: int| 0 <= i < m2.links.len() implies crate::store::note_id_of(
        m2,
        (#[trigger] m2.links[i]).source_id,
    ) && match m2.links[i].target_id {
        Some(t) => crate::store::note_id_of(m2, t),
        None => true,
    } by {
        assert(crate::store::note_id_of(m, m.links[i].source_id));
        match m.links[i].target_id {
            Some(t) => {
                assert(crate::store::note_id_of(m, t));
            },
            None => {},
        }
    }
    assert forall|i: int| 0 <= i < m2.note_tags.len() implies crate::store::note_id_of(
        m2,
        (#[trigger] m2.note_tags[i]).0,
    ) && crate::store::tag_id_of(m2, m2.note_tags[i].1) by {
        assert(crate::store::note_id_of(m, m.note_tags[i].0));
        assert(crate::store::tag_id_of(m, m.note_tags[i].1));
        let w = choose|w: int| 0 <= w < m.tags.len() && (#[trigger] m.tags[w]).id
            == m.note_tags[i].1;
        assert(m2.tags[w].id == m.note_tags[i].1);
    }
}

impl Store {
    /// Replace the shadow record of a note: any existing record for the
    /// identifier goes, and the fresh title and body are written.
    pub fn update_fts(&mut self, note_id: i64, title: &str, content: &str)
        requires
            wf(old(self)@),
        ensures
            wf(final(self)@),
            final(self)@ == (StoreModel {
                fts: fts_without(old(self)@.fts, note_id, 0).push(
                    FtsR { note_id: note_id, title: title@, content: content@ },
                ),
                ..old(self)@
            }),
    {
        let ghost m = self@;
        self.delete_fts(note_id);
        let row = FtsRow {
            note_id: note_id,
            title: String::from_str(title),
            content: String::from_str(content),
        };
        let ghost rv = row@;
        let ghost f_pre = self@.fts;
        self.fts.push(row);
        proof {
            assert(self@.fts =~= f_pre.push(rv));
            assert(self@ =~= StoreModel {
                fts: fts_without(m.fts, note_id, 0).push(
                    FtsR { note_id: note_id, title: title@, content: content@ },
                ),
                ..m
            });
            lemma_fts_without_props(m.fts, note_id, 0);
            let kept = fts_without(m.fts, note_id, 0);
            assert forall|a: int, b: int| 0 <= a < b < self@.fts.len() implies (
            #[trigger] self@.fts[a]).note_id != (#[trigger] self@.fts[b]).note_id by {
                if b == self@.fts.len() - 1 {
                    assert(self@.fts[a] == kept[a]);
                    assert(kept[a].note_id != note_id);
                } else {
                    assert(self@.fts[a] == kept[a] && self@.fts[b] == kept[b]);
                }
            }
            lemma_wf_fts_only(m, self@);
        }
    }

    /// Remove the shadow record of a note, if one is present.
    pub fn delete_fts(&mut self, note_id: i64)
        requires
            wf(old(self)@),
        ensures
            wf(final(self)@),
            final(self)@ == (StoreModel {
                fts: fts_without(old(self)@.fts, note_id, 0),
                ..old(self)@
            }),
    {
        let ghost m = self@;
        let nf = self.fts.len();
        let mut kept: Vec<FtsRow> = Vec::new();
        let mut i: usize = 0;
        while i < nf
            invariant
                0 <= i <= nf,
                nf == self.fts@.len(),
                self@.fts == m.fts,
                m.fts.len() == nf as int,
                kept@.map_values(|f: FtsRow| f@) + fts_without(m.fts, note_id, i as int)
                    =~= fts_without(m.fts, note_id, 0),
            decreases nf - i,
        {
            let ghost pre = kept@.map_values(|f: FtsRow| f@);
            proof {
                assert(m.fts[i as int] == self.fts@[i as int]@);
            }
            if self.fts[i].note_id != note_id {
                let f = &self.fts[i];
                let row = FtsRow {
                    note_id: f.note_id,
                    title: String::from_str(f.title.as_str()),
                    content: String::from_str(f.content.as_str()),
                };
                kept.push(row);
                proof {
                    assert(kept@.map_values(|f: FtsRow| f@) =~= pre + seq![m.fts[i as int]]);
                    assert(fts_without(m.fts, note_id, i as int) == seq![m.fts[i as int]]
                        + fts_without(m.fts, note_id, i + 1));
                }
            } else {
                proof {
                    assert(fts_without(m.fts, note_id, i as int) == fts_without(
                        m.fts,
                        note_id,
                        i + 1,
                    ));
                }
            }
            i = i + 1;
        }
        self.fts = kept;
        proof {
            assert(fts_without(m.fts, note_id, i as int) =~= Seq::<FtsR>::empty());
            assert(self@.fts =~= fts_without(m.fts, note_id, 0));
            assert(self@ =~= StoreModel { fts: fts_without(m.fts, note_id, 0), ..m });
            lemma_fts_without_props(m.fts, note_id, 0);
            lemma_wf_fts_only(m, self@);
        }
    }
}

// ---------------------------------------------------------------------
// Matching
// ---------------------------------------------------------------------

/// How often `pat` occurs in `text` from position `i` on, counting
/// non-overlapping occurrences: the scan skips past each match.
pub open spec fn count_occ(text: Seq<char>, pat: Seq<char>, i: int) -> int
    decreases text.len() - i + 1,
{
    if i < 0 || pat.len() == 0 || i + pat.len() > text.len() {
        0
    } else if text.subrange(i, i + pat.len()) == pat {
        1 + count_occ(text, pat, i + pat.len())
    } else {
        count_occ(text, pat, i + 1)
    }
}

/// First position at or after `i` where `pat` occurs in `text`, or
/// `-1`.
pub open spec fn first_occ(text: Seq<char>, pat: Seq<char>, i: int) -> int
    decreases text.len() - i + 1,
{
    if i < 0 || i + pat.len() > text.len() {
        -1
    } else if text.subrange(i, i + pat.len()) == pat {
        i
    } else {
        first_occ(text, pat, i + 1)
    }
}

/// An occurrence anywhere gives a positive count.
pub proof fn lemma_occ_positive(text: Seq<char>, pat: Seq<char>, i: int)
    requires
        0 <= i,
        0 < pat.len(),
        i + pat.len() <= text.len(),
        text.subrange(i, i + pat.len()) == pat,
    ensures
        count_occ(text, pat, 0) > 0,
{
    lemma_occ_positive_from(text, pat, 0, i);
}

proof fn lemma_occ_positive_from(text: Seq<char>, pat: Seq<char>, j: int, i: int)
    requires
        0 <= j <= i,
        0 < pat.len(),
        i + pat.len() <= text.len(),
        text.subrange(i, i + pat.len()) == pat,
    ensures
        count_occ(text, pat, j) > 0,
    decreases i - j,
{
    if text.subrange(j, j + pat.len()) == pat {
        // the scan matches here, whether or not this is position `i`
        lemma_count_nonneg(text, pat, j + pat.len() as int);
    } else {
        lemma_occ_positive_from(text, pat, j + 1, i);
    }
}

pub proof fn lemma_count_nonneg(text: Seq<char>, pat: Seq<char>, i: int)
    ensures
        count_occ(text, pat, i) >= 0,
    decreases text.len() - i + 1,
{
    if !(i < 0 || pat.len() == 0 || i + pat.len() > text.len()) {
        if text.subrange(i, i + pat.len()) == pat {
            lemma_count_nonneg(text, pat, i + pat.len() as int);
        } else {
            lemma_count_nonneg(text, pat, i + 1);
        }
    }
}

/// If `pat` does not occur at positions `[i, m)` and occurs at `m` (or
/// nowhere), the scan from `i` finds `m` (or nothing).
proof fn lemma_first_occ_char(text: Seq<char>, pat: Seq<char>, i: int, m: int)
    requires
        0 <= i <= m,
        m <= text.len() + 1,
        forall|k: int|
            i <= k < m ==> !(k + pat.len() <= text.len() && #[trigger] text.subrange(
                k,
                k + pat.len(),
            ) == pat),
        m + pat.len() <= text.len() ==> text.subrange(m, m + pat.len()) == pat,
    ensures
        first_occ(text, pat, i) == if m + pat.len() <= text.len() {
            m
        } else {
            -1
        },
    decreases m - i,
{
    if i < m {
        lemma_first_occ_char(text, pat, i + 1, m);
    }
}

// ---------------------------------------------------------------------
// Snippets
// ---------------------------------------------------------------------

pub open spec fn mark_open() -> Seq<char> {
    seq!['<', 'm', 'a', 'r', 'k', '>']
}

pub open spec fn mark_close() -> Seq<char> {
    seq!['<', '/', 'm', 'a', 'r', 'k', '>']
}

pub open spec fn ellipsis() -> Seq<char> {
    seq!['.', '.', '.']
}

/// Facts about the first occurrence: when found it is a real
/// occurrence, and nothing occurs before it.
pub proof fn lemma_first_occ_props(text: Seq<char>, pat: Seq<char>, i: int)
    requires
        0 <= i,
    ensures
        ({
            let f = first_occ(text, pat, i);
            &&& f == -1 || f >= i
            &&& f >= 0 ==> i <= f && f + pat.len() <= text.len() && text.subrange(
                f,
                f + pat.len(),
            ) == pat
        }),
    decreases text.len() - i + 1,
{
    if !(i + pat.len() > text.len()) && !(text.subrange(i, i + pat.len()) == pat) {
        lemma_first_occ_props(text, pat, i + 1);
    }
}

/// The highlighted excerpt for a match of `pat` (already folded)
/// against a note body: a window of up to forty characters around the
/// first occurrence, the match wrapped in mark tags, truncation shown
/// by ellipses; with no occurrence in the body, the body's first eighty
/// characters.
pub open spec fn spec_snippet(content: Seq<char>, pat: Seq<char>) -> Seq<char> {
    let fc = fold(content);
    let p = first_occ(fc, pat, 0);
    if p >= 0 {
        let start = if p >= 40 {
            p - 40
        } else {
            0
        };
        let pe = p + pat.len();
        let end = if pe + 40 <= content.len() {
            pe + 40
        } else {
            content.len() as int
        };
        (if start > 0 {
            ellipsis()
        } else {
            Seq::empty()
        }) + content.subrange(start, p) + mark_open() + content.subrange(p, pe) + mark_close()
            + content.subrange(pe, end) + (if end < content.len() {
            ellipsis()
        } else {
            Seq::empty()
        })
    } else {
        if content.len() > 80 {
            content.subrange(0, 80) + ellipsis()
        } else {
            content
        }
    }
}

fn push_ellipsis(out: &mut Vec<char>)
    ensures
        final(out)@ == old(out)@ + ellipsis(),
{
    out.push('.');
    out.push('.');
    out.push('.');
    proof {
        assert(final(out)@ =~= old(out)@ + ellipsis());
    }
}

fn push_mark_open(out: &mut Vec<char>)
    ensures
        final(out)@ == old(out)@ + mark_open(),
{
    out.push('<');
    out.push('m');
    out.push('a');
    out.push('r');
    out.push('k');
    out.push('>');
    proof {
        assert(final(out)@ =~= old(out)@ + mark_open());
    }
}

fn push_mark_close(out: &mut Vec<char>)
    ensures
        final(out)@ == old(out)@ + mark_close(),
{
    out.push('<');
    out.push('/');
    out.push('m');
    out.push('a');
    out.push('r');
    out.push('k');
    out.push('>');
    proof {
        assert(final(out)@ =~= old(out)@ + mark_close());
    }
}

/// Build the snippet for a note body and a folded pattern.
fn build_snippet(content: &Vec<char>, pat: &Vec<char>) -> (r: Vec<char>)
    requires
        pat@.len() > 0,
    ensures
        r@ == spec_snippet(content@, pat@),
{
    let fc = fold_chars(content);
    let nt = content.len();
    proof {
        assert(fc@.len() == content@.len());
        lemma_first_occ_props(fc@, pat@, 0);
    }
    let p = find_first_occ(&fc, pat);
    if p < nt {
        proof {
            assert(first_occ(fc@, pat@, 0) == p as int);
        }
        let start = if p >= 40 {
            p - 40
        } else {
            0
        };
        let pe = p + pat.len();
        let end = if nt - pe > 40 {
            pe + 40
        } else {
            nt
        };
        let mut out: Vec<char> = Vec::new();
        if start > 0 {
            push_ellipsis(&mut out);
        }
        let mut piece = copy_range(content, start, p);
        out.append(&mut piece);
        push_mark_open(&mut out);
        let mut piece = copy_range(content, p, pe);
        out.append(&mut piece);
        push_mark_close(&mut out);
        let mut piece = copy_range(content, pe, end);
        out.append(&mut piece);
        if end < nt {
            push_ellipsis(&mut out);
        }
        proof {
            assert(out@ =~= spec_snippet(content@, pat@));
        }
        out
    } else {
        proof {
            assert(first_occ(fc@, pat@, 0) == -1) by {
                if first_occ(fc@, pat@, 0) >= 0 {
                    assert(first_occ(fc@, pat@, 0) + pat@.len() <= fc@.len());
                }
            }
        }
        if nt > 80 {
            let mut out = copy_range(content, 0, 80);
            push_ellipsis(&mut out);
            proof {
                assert(out@ =~= spec_snippet(content@, pat@));
            }
            out
        } else {
            let out = copy_range(content, 0, nt);
            proof {
                assert(out@ =~= spec_snippet(content@, pat@));
            }
            out
        }
    }
}

// ---------------------------------------------------------------------
// Search
// ---------------------------------------------------------------------

/// One search result.
pub struct SearchResult {
    pub id: i64,
    pub path: String,
    pub title: String,
    pub snippet: String,
    /// The negated occurrence count: lower ranks better.
    pub rank: i64,
    pub match_count: i32,
}

#[verifier::ext_equal]
pub struct SearchResultR {
    pub id: i64,
    pub path: Seq<char>,
    pub title: Seq<char>,
    pub snippet: Seq<char>,
    pub rank: i64,
    pub match_count: i32,
}

impl View for SearchResult {
    type V = SearchResultR;

    open spec fn view(&self) -> SearchResultR {
        SearchResultR {
            id: self.id,
            path: self.path@,
            title: self.title@,
            snippet: self.snippet@,
            rank: self.rank,
            match_count: self.match_count,
        }
    }
}

/// The text a record is matched against: title and body, space-joined.
pub open spec fn fts_text(f: FtsR) -> Seq<char> {
    f.title + seq![' '] + f.content
}

pub open spec fn clip64(c: int) -> i64 {
    if c > i64::MAX {
        i64::MAX
    } else {
        c as i64
    }
}

/// The result row for one matching record, joined with its note.
pub open spec fn hit_of(m: StoreModel, f: FtsR, pat: Seq<char>) -> SearchResultR {
    let k = note_idx_by_id(m.notes, f.note_id);
    let c = count_occ(fold(fts_text(f)), pat, 0);
    SearchResultR {
        id: f.note_id,
        path: m.notes[k].path,
        title: m.notes[k].title,
        snippet: spec_snippet(f.content, pat),
        rank: (0 - clip64(c)) as i64,
        match_count: clip_count(c),
    }
}

/// All matching records joined with their notes, in record order: a
/// record matches when the folded pattern occurs in its folded text and
/// its note is indexed.
pub open spec fn search_hits(m: StoreModel, pat: Seq<char>, i: int) -> Seq<SearchResultR>
    decreases m.fts.len() - i,
{
    if i < 0 || i >= m.fts.len() {
        Seq::empty()
    } else {
        let rest = search_hits(m, pat, i + 1);
        if note_idx_by_id(m.notes, m.fts[i].note_id) >= 0 && count_occ(
            fold(fts_text(m.fts[i])),
            pat,
            0,
        ) > 0 {
            seq![hit_of(m, m.fts[i], pat)] + rest
        } else {
            rest
        }
    }
}

/// Result order: better (lower) rank first, ties by ascending note
/// identifier.
pub open spec fn result_before(a: SearchResultR, b: SearchResultR) -> bool {
    a.rank < b.rank || (a.rank == b.rank && a.id < b.id)
}

/// The hits a capped search left out: each hit's multiplicity beyond
/// its multiplicity among the returned rows.
pub open spec fn dropped_hits(
    hits: Seq<SearchResultR>,
    r: Seq<SearchResult>,
) -> vstd::multiset::Multiset<SearchResultR> {
    hits.to_multiset().sub(r.map_values(|x: SearchResult| x@).to_multiset())
}

impl SortOrd for SearchResult {
    open spec fn before(self, other: Self) -> bool {
        result_before(self@, other@)
    }

    proof fn lemma_asym(a: Self, b: Self) {
    }

    fn lt(&self, other: &Self) -> (r: bool) {
        self.rank < other.rank || (self.rank == other.rank && self.id < other.id)
    }
}

/// In a sorted result sequence, no earlier row ranks strictly worse
/// than a later one.
proof fn lemma_sorted_not_before(s: Seq<SearchResult>, i: int, j: int)
    requires
        sorted_rows(s),
        0 <= i <= j < s.len(),
    ensures
        !result_before(s[j]@, s[i]@),
    decreases j - i,
{
    if i < j {
        lemma_sorted_not_before(s, i, j - 1);
        assert(!((s[(j - 1) + 1]).before(s[j - 1])));
    }
}

impl Store {
    /// Search the shadow records for the query, treated as one literal
    /// phrase, case-insensitively. An empty or whitespace-only query
    /// yields no results and no error. Results carry the note's
    /// identifier, path and title, a highlighted snippet, the rank
    /// (negated occurrence count; lower is better) and the occurrence
    /// count, and are ordered by rank, ties by ascending identifier —
    /// the same corpus and query always order the same way. At most
    /// `limit` results are returned, the best-ranked first.
    pub fn search_notes(&self, query: &str, limit: usize) -> (r: Vec<SearchResult>)
        ensures
            ({
                let pat = fold(spec_trim(query@));
                let hits = search_hits(self@, pat, 0);
                &&& (spec_trim(query@).len() == 0 ==> r@.len() == 0)
                &&& (spec_trim(query@).len() > 0 ==> sorted_rows(r@))
                &&& (spec_trim(query@).len() > 0 ==> r@.len() == (if hits.len() <= limit {
                    hits.len()
                } else {
                    limit as nat
                }))
                &&& (spec_trim(query@).len() > 0 && hits.len() <= limit ==> r@.map_values(
                    |x: SearchResult| x@,
                ).to_multiset() == hits.to_multiset())
                &&& (spec_trim(query@).len() > 0 ==> forall|i: int|
                    0 <= i < r@.len() ==> hits.to_multiset().contains((#[trigger] r@[i])@))
                &&& (spec_trim(query@).len() > 0 ==> r@.map_values(
                    |x: SearchResult| x@,
                ).to_multiset().subset_of(hits.to_multiset()))
                &&& (spec_trim(query@).len() > 0 ==> forall|a: SearchResultR, i: int|
                    (#[trigger] dropped_hits(hits, r@).count(a)) > 0 && 0 <= i < r@.len()
                        ==> !result_before(a, (#[trigger] r@[i])@))
            }),
    {
        let ghost m = self@;
        let qc = chars_of(query);
        let t = trim_chars(&qc);
        if t.len() == 0 {
            let r: Vec<SearchResult> = Vec::new();
            return r;
        }
        let pat = fold_chars(&t);
        let ghost gpat = fold(spec_trim(query@));
        proof {
            assert(pat@ == gpat);
            assert(pat@.len() == t@.len());
        }
        let nf = self.fts.len();
        let mut found: Vec<SearchResult> = Vec::new();
        let mut i: usize = 0;
        while i < nf
            invariant
                0 <= i <= nf,
                nf == self.fts@.len(),
                self@ == m,
                m.fts.len() == nf as int,
                pat@ == gpat,
                pat@.len() > 0,
                found@.map_values(|x: SearchResult| x@) + search_hits(m, gpat, i as int)
                    =~= search_hits(m, gpat, 0),
            decreases nf - i,
        {
            let ghost pre = found@.map_values(|x: SearchResult| x@);
            proof {
                assert(m.fts[i as int] == self.fts@[i as int]@);
            }
            let nid = self.fts[i].note_id;
            let sj = find_note_by_id(&self.notes, nid);
            if sj < self.notes.len() {
                proof {
                    assert(m.notes[sj as int] == self.notes@[sj as int]@);
                    assert(note_idx_by_id(m.notes, nid) == sj as int);
                }
                // the matched text: title, a space, the body
                let mut text = chars_of(self.fts[i].title.as_str());
                text.push(' ');
                let mut body = chars_of(self.fts[i].content.as_str());
                let ghost bodyv = body@;
                text.append(&mut body);
                proof {
                    assert(text@ =~= fts_text(m.fts[i as int]));
                }
                let ftext = fold_chars(&text);
                let cnt = count_occurrences(&ftext, &pat);
                let ghost gcnt = count_occ(fold(fts_text(m.fts[i as int])), gpat, 0);
                proof {
                    assert(cnt as int == gcnt);
                }
                if cnt > 0 {
                    let content_chars = chars_of(self.fts[i].content.as_str());
                    let snippet_chars = build_snippet(&content_chars, &pat);
                    let snippet = string_from_chars(&snippet_chars);
                    let mc: i32 = if cnt > (i32::MAX as u64) {
                        i32::MAX
                    } else {
                        cnt as i32
                    };
                    let rk64: i64 = if cnt > (i64::MAX as u64) {
                        i64::MAX
                    } else {
                        cnt as i64
                    };
                    let row = SearchResult {
                        id: nid,
                        path: String::from_str(self.notes[sj].path.as_str()),
                        title: String::from_str(self.notes[sj].title.as_str()),
                        snippet: snippet,
                        rank: 0 - rk64,
                        match_count: mc,
                    };
                    let ghost rv = row@;
                    found.push(row);
                    proof {
                        assert(rv == hit_of(m, m.fts[i as int], gpat));
                        assert(found@.map_values(|x: SearchResult| x@) =~= pre + seq![
                            hit_of(m, m.fts[i as int], gpat),
                        ]);
                        assert(search_hits(m, gpat, i as int) == seq![
                            hit_of(m, m.fts[i as int], gpat),
                        ] + search_hits(m, gpat, i + 1));
                    }
                } else {
                    proof {
                        assert(search_hits(m, gpat, i as int) == search_hits(m, gpat, i + 1));
                    }
                }
            } else {
                proof {
                    lemma_first_where_props(m.notes, |n: NoteR| n.id == nid);
                    assert(note_idx_by_id(m.notes, nid) == -1);
                    assert(search_hits(m, gpat, i as int) == search_hits(m, gpat, i + 1));
                }
            }
            i = i + 1;
        }
        proof {
            assert(search_hits(m, gpat, i as int) =~= Seq::<SearchResultR>::empty());
            assert(found@.map_values(|x: SearchResult| x@) =~= search_hits(m, gpat, 0));
        }
        let ghost hits = search_hits(m, gpat, 0);
        let ghost found_v = found@;
        let mut r = sort_rows(found);
        proof {
            broadcast use vstd::seq_lib::group_to_multiset_ensures;

            crate::store::lemma_multiset_map(found_v, r@, |x: SearchResult| x@);
            assert(r@.map_values(|x: SearchResult| x@).to_multiset() == hits.to_multiset());
            assert forall|j: int| 0 <= j < r@.len() implies hits.to_multiset().contains(
                (#[trigger] r@[j])@,
            ) by {
                let rviews = r@.map_values(|x: SearchResult| x@);
                assert(rviews[j] == r@[j]@);
                assert(rviews.contains(rviews[j]));
                assert(rviews.to_multiset().contains(rviews[j]));
            }
            let rviews = r@.map_values(|x: SearchResult| x@);
            assert(rviews.to_multiset().len() == hits.to_multiset().len());
            assert(rviews.len() == rviews.to_multiset().len());
            assert(hits.len() == hits.to_multiset().len());
            assert(r@.len() == hits.len());
        }
        let ghost mut dms = vstd::multiset::Multiset::<SearchResultR>::empty();
        proof {
            broadcast use vstd::multiset::group_multiset_axioms;

            assert(r@.map_values(|x: SearchResult| x@).to_multiset().add(dms)
                =~= hits.to_multiset());
        }
        while r.len() > limit
            invariant
                sorted_rows(r@),
                r@.len() >= limit || r@.len() == hits.len(),
                hits.len() <= limit ==> r@.len() == hits.len(),
                hits.len() <= limit ==> r@.map_values(|x: SearchResult| x@).to_multiset()
                    == hits.to_multiset(),
                forall|j: int| 0 <= j < r@.len() ==> hits.to_multiset().contains(
                    (#[trigger] r@[j])@,
                ),
                r@.map_values(|x: SearchResult| x@).to_multiset().add(dms)
                    == hits.to_multiset(),
                forall|a: SearchResultR, j: int|
                    (#[trigger] dms.count(a)) > 0 && 0 <= j < r@.len() ==> !result_before(
                        a,
                        (#[trigger] r@[j])@,
                    ),
            decreases r@.len(),
        {
            let ghost pre = r@;
            let ghost dms_pre = dms;
            r.pop();
            proof {
                broadcast use vstd::multiset::group_multiset_axioms;
                broadcast use vstd::seq_lib::group_to_multiset_ensures;

                assert(r@ =~= pre.subrange(0, pre.len() - 1));
                let prev_views = pre.map_values(|x: SearchResult| x@);
                let new_views = r@.map_values(|x: SearchResult| x@);
                let x = prev_views[prev_views.len() - 1];
                assert(new_views =~= prev_views.remove(prev_views.len() - 1));
                assert(new_views.to_multiset() =~= prev_views.to_multiset().remove(x));
                assert(prev_views.contains(x));
                assert(prev_views.to_multiset().count(x) > 0);
                dms = dms.insert(x);
                assert(new_views.to_multiset().add(dms) =~= prev_views.to_multiset().add(
                    dms_pre,
                ));
                assert forall|j: int| 0 <= j < r@.len() implies hits.to_multiset().contains(
                    (#[trigger] r@[j])@,
                ) by {
                    assert(r@[j] == pre[j]);
                }
                assert forall|j: int| 0 <= j < r@.len() - 1 implies !((#[trigger] r@[j
                    + 1]).before(r@[j])) by {
                    assert(r@[j] == pre[j] && r@[j + 1] == pre[j + 1]);
                }
                assert forall|a: SearchResultR, j: int|
                    (#[trigger] dms.count(a)) > 0 && 0 <= j < r@.len() implies !result_before(
                    a,
                    (#[trigger] r@[j])@,
                ) by {
                    assert(r@[j] == pre[j]);
                    if dms_pre.count(a) > 0 {
                        assert(!result_before(a, pre[j]@));
                    }
                    if a == x {
                        lemma_sorted_not_before(pre, j, pre.len() - 1);
                        assert(pre[pre.len() - 1]@ == x);
                    }
                }
            }
        }
        proof {
            broadcast use vstd::multiset::group_multiset_axioms;

            let rviews = r@.map_values(|x: SearchResult| x@);
            assert forall|a: SearchResultR| true implies #[trigger] hits.to_multiset().count(a)
                >= rviews.to_multiset().count(a) by {
                assert(hits.to_multiset().count(a) == rviews.to_multiset().count(a)
                    + dms.count(a));
            }
            assert(rviews.to_multiset().subset_of(hits.to_multiset()));
            assert forall|a: SearchResultR, i2: int|
                (#[trigger] dropped_hits(hits, r@).count(a)) > 0 && 0 <= i2 < r@.len()
                implies !result_before(a, (#[trigger] r@[i2])@) by {
                assert(hits.to_multiset().count(a) == rviews.to_multiset().count(a)
                    + dms.count(a));
                assert(dms.count(a) > 0);
            }
        }
        r
    }
}

// ---------------------------------------------------------------------
// Laws of the search
// ---------------------------------------------------------------------

/// A record whose folded text carries the pattern, and whose note is
/// indexed, yields a search hit with that note's identifier.
pub proof fn lemma_search_finds_match(m: StoreModel, pat: Seq<char>, fi: int)
    requires
        0 <= fi < m.fts.len(),
        note_idx_by_id(m.notes, m.fts[fi].note_id) >= 0,
        count_occ(fold(fts_text(m.fts[fi])), pat, 0) > 0,
    ensures
        exists|x: int|
            0 <= x < search_hits(m, pat, 0).len() && (#[trigger] search_hits(m, pat, 0)[x]).id
                == m.fts[fi].note_id,
{
    lemma_search_finds_from(m, pat, 0, fi);
}

proof fn lemma_search_finds_from(m: StoreModel, pat: Seq<char>, i: int, fi: int)
    requires
        0 <= i <= fi < m.fts.len(),
        note_idx_by_id(m.notes, m.fts[fi].note_id) >= 0,
        count_occ(fold(fts_text(m.fts[fi])), pat, 0) > 0,
    ensures
        exists|x: int|
            0 <= x < search_hits(m, pat, i).len() && (#[trigger] search_hits(m, pat, i)[x]).id
                == m.fts[fi].note_id,
    decreases fi - i,
{
    let r = search_hits(m, pat, i);
    let rest = search_hits(m, pat, i + 1);
    if i == fi {
        assert(r[0] == hit_of(m, m.fts[fi], pat));
        assert(r[0].id == m.fts[fi].note_id);
    } else {
        lemma_search_finds_from(m, pat, i + 1, fi);
        let x = choose|x: int|
            0 <= x < rest.len() && (#[trigger] rest[x]).id == m.fts[fi].note_id;
        if note_idx_by_id(m.notes, m.fts[i].note_id) >= 0 && count_occ(
            fold(fts_text(m.fts[i])),
            pat,
            0,
        ) > 0 {
            assert(r[x + 1] == rest[x]);
        } else {
            assert(r[x] == rest[x]);
        }
    }
}

/// A pattern occurring in no record's folded text yields no hits at
/// all.
pub proof fn lemma_search_none(m: StoreModel, pat: Seq<char>, i: int)
    requires
        0 <= i <= m.fts.len(),
        forall|j: int|
            0 <= j < m.fts.len() ==> count_occ(fold(fts_text(#[trigger] m.fts[j])), pat, 0)
                <= 0,
    ensures
        search_hits(m, pat, i) == Seq::<SearchResultR>::empty(),
    decreases m.fts.len() - i,
{
    if i < m.fts.len() {
        lemma_search_none(m, pat, i + 1);
        assert(search_hits(m, pat, i) =~= Seq::<SearchResultR>::empty());
    } else {
        assert(search_hits(m, pat, i) =~= Seq::<SearchResultR>::empty());
    }
}

/// Every hit's identifier comes from some shadow record.
pub proof fn lemma_hits_ids_from_fts(m: StoreModel, pat: Seq<char>, i: int)
    requires
        0 <= i <= m.fts.len(),
    ensures
        forall|x: int|
            0 <= x < search_hits(m, pat, i).len() ==> exists|j: int|
                i <= j < m.fts.len() && (#[trigger] search_hits(m, pat, i)[x]).id == (
                #[trigger] m.fts[j]).note_id,
    decreases m.fts.len() - i,
{
    if i < m.fts.len() {
        lemma_hits_ids_from_fts(m, pat, i + 1);
        let r = search_hits(m, pat, i);
        let rest = search_hits(m, pat, i + 1);
        assert forall|x: int| 0 <= x < r.len() implies exists|j: int|
            i <= j < m.fts.len() && (#[trigger] r[x]).id == (#[trigger] m.fts[j]).note_id by {
            if note_idx_by_id(m.notes, m.fts[i].note_id) >= 0 && count_occ(
                fold(fts_text(m.fts[i])),
                pat,
                0,
            ) > 0 {
                if x == 0 {
                    assert(r[0].id == m.fts[i].note_id);
                } else {
                    assert(r[x] == rest[x - 1]);
                    let j = choose|j: int|
                        i + 1 <= j < m.fts.len() && rest[x - 1].id == (
                        #[trigger] m.fts[j]).note_id;
                    assert(r[x].id == m.fts[j].note_id);
                }
            } else {
                assert(r[x] == rest[x]);
                let j = choose|j: int|
                    i + 1 <= j < m.fts.len() && rest[x].id == (#[trigger] m.fts[j]).note_id;
                assert(r[x].id == m.fts[j].note_id);
            }
        }
    }
}

/// Does `pat` occur in `text` starting exactly at `i`?
fn match_at(text: &Vec<char>, pat: &Vec<char>, i: usize) -> (r: bool)
    requires
        i + pat@.len() <= text@.len(),
    ensures
        r == (text@.subrange(i as int, i + pat@.len()) == pat@),
{
    let np = pat.len();
    let nt = text.len();
    let mut k: usize = 0;
    while k < np
        invariant
            0 <= k <= np,
            np == pat@.len(),
            nt == text@.len(),
            i + np <= nt,
            forall|j: int| 0 <= j < k ==> text@[i + j] == pat@[j],
        decreases np - k,
    {
        if text[i + k] != pat[k] {
            proof {
                assert(text@.subrange(i as int, i + pat@.len())[k as int] != pat@[k as int]);
            }
            return false;
        }
        k = k + 1;
    }
    proof {
        assert(text@.subrange(i as int, i + pat@.len()) =~= pat@);
    }
    true
}

/// Count the occurrences of `pat` in `text`, saturating at the u64
/// range (which the count, bounded by the text length, never exceeds).
fn count_occurrences(text: &Vec<char>, pat: &Vec<char>) -> (r: u64)
    requires
        pat@.len() > 0,
    ensures
        r as int == count_occ(text@, pat@, 0),
{
    let nt = text.len();
    let np = pat.len();
    if np > nt {
        return 0;
    }
    let mut cnt: u64 = 0;
    let mut i: usize = 0;
    proof {
        lemma_count_nonneg(text@, pat@, 0);
    }
    while i <= nt - np
        invariant
            0 <= i <= nt,
            nt == text@.len(),
            np == pat@.len(),
            0 < np <= nt,
            cnt <= i,
            cnt as int + count_occ(text@, pat@, i as int) == count_occ(text@, pat@, 0),
        decreases nt - i,
    {
        if match_at(text, pat, i) {
            proof {
                lemma_count_nonneg(text@, pat@, i + np);
            }
            cnt = cnt + 1;
            i = i + np;
        } else {
            proof {
                lemma_count_nonneg(text@, pat@, i + 1);
            }
            i = i + 1;
        }
    }
    proof {
        assert(count_occ(text@, pat@, i as int) == 0);
    }
    cnt
}

/// First occurrence of `pat` in `text`, or the text length when there
/// is none.
fn find_first_occ(text: &Vec<char>, pat: &Vec<char>) -> (r: usize)
    requires
        pat@.len() > 0,
    ensures
        ({
            let f = first_occ(text@, pat@, 0);
            if f >= 0 {
                r as int == f
            } else {
                r as int == text@.len()
            }
        }),
{
    let nt = text.len();
    let np = pat.len();
    if np > nt {
        proof {
            lemma_first_occ_char(text@, pat@, 0, 0);
        }
        return nt;
    }
    let mut i: usize = 0;
    while i <= nt - np
        invariant
            0 <= i <= nt,
            nt == text@.len(),
            np == pat@.len(),
            0 < np <= nt,
            forall|k: int|
                0 <= k < i ==> !(k + pat@.len() <= text@.len() && #[trigger] text@.subrange(
                    k,
                    k + pat@.len(),
                ) == pat@),
        decreases nt - i,
    {
        if match_at(text, pat, i) {
            proof {
                lemma_first_occ_char(text@, pat@, 0, i as int);
            }
            return i;
        }
        i = i + 1;
    }
    proof {
        lemma_first_occ_char(text@, pat@, 0, nt + 1);
        assert(first_occ(text@, pat@, 0) == -1);
    }
    nt
}

} // verus!
