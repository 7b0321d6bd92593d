//! Link rows: replacing a note's link set wholesale with a freshly
//! extracted set (duplicates on the same line collapse), the resolution
//! pass that binds each new link to an indexed note whose path matches
//! the raw target case-insensitively (with or without the note
//! extension), and the outlink and backlink queries.
//!
//! Resolution runs only over the links being written: links of other
//! notes are never re-resolved here.

use vstd::prelude::*;
use crate::store::{
    Store, StoreModel, StoreError, NoteR, Link, LinkR, wf, first_where,
    lemma_first_at_char, lemma_first_where_props, note_id_of, note_idx_by_id, note_idx_by_path,
    tag_id_of, SortOrd, sort_rows,
};
use crate::text::{
    fold, fold_chars, chars_of, chars_eq, view_opt_string, lex_lt, lex_lt_exec,
    lemma_lex_asym, str_eq,
};
use crate::notes::find_note_by_id;

verus! {

// ---------------------------------------------------------------------
// Input links
// ---------------------------------------------------------------------

/// One link to write: raw target, optional display text, line number.
pub struct LinkInput {
    pub target: String,
    pub display: Option<String>,
    pub line: Option<i32>,
}

#[verifier::ext_equal]
pub struct LinkInputR {
    pub target: Seq<char>,
    pub display: Option<Seq<char>>,
    pub line: Option<i32>,
}

impl View for LinkInput {
    type V = LinkInputR;

    open spec fn view(&self) -> LinkInputR {
        LinkInputR {
            target: self.target@,
            display: view_opt_string(self.display),
            line: self.line,
        }
    }
}

// ---------------------------------------------------------------------
// Resolution
// ---------------------------------------------------------------------

/// The note-file extension.
pub open spec fn md_ext() -> Seq<char> {
    seq!['.', 'm', 'd']
}

/// Whether a note path matches a raw link target: equal after ASCII
/// case folding, either as written or with the extension appended.
pub open spec fn link_matches_note(path: Seq<char>, target: Seq<char>) -> bool {
    fold(path) == fold(target + md_ext()) || fold(path) == fold(target)
}

/// The identifier of the first indexed note whose path matches the
/// target, or `None`.
pub open spec fn resolve_target(notes: Seq<NoteR>, target: Seq<char>) -> Option<i64> {
    let k = first_where(notes, |n: NoteR| link_matches_note(n.path, target));
    if k >= 0 {
        Some(notes[k].id)
    } else {
        None
    }
}

// ---------------------------------------------------------------------
// Replacement model
// ---------------------------------------------------------------------

/// The link rows of other notes, from index `i` on, unchanged.
pub open spec fn links_without_source(links: Seq<LinkR>, sid: i64, i: int) -> Seq<LinkR>
    decreases links.len() - i,
{
    if i < 0 || i >= links.len() {
        Seq::empty()
    } else {
        let rest = links_without_source(links, sid, i + 1);
        if links[i].source_id == sid {
            rest
        } else {
            seq![links[i]] + rest
        }
    }
}

/// The link rows of one note, from index `i` on, in table order.
pub open spec fn links_with_source(links: Seq<LinkR>, sid: i64, i: int) -> Seq<LinkR>
    decreases links.len() - i,
{
    if i < 0 || i >= links.len() {
        Seq::empty()
    } else {
        let rest = links_with_source(links, sid, i + 1);
        if links[i].source_id == sid {
            seq![links[i]] + rest
        } else {
            rest
        }
    }
}

pub open spec fn same_link_key(a: LinkInputR, b: LinkInputR) -> bool {
    a.target == b.target && a.line == b.line
}

/// Whether input `j` is the first occurrence of its (target, line) key.
pub open spec fn fresh_at(inputs: Seq<LinkInputR>, j: int) -> bool {
    forall|j2: int| 0 <= j2 < j ==> !same_link_key(#[trigger] inputs[j2], inputs[j])
}

/// The first `i` inputs with later duplicates of a key dropped.
pub open spec fn dedup_prefix(inputs: Seq<LinkInputR>, i: int) -> Seq<LinkInputR>
    decreases i,
{
    if i <= 0 {
        Seq::empty()
    } else {
        let pre = dedup_prefix(inputs, i - 1);
        if fresh_at(inputs, i - 1) {
            pre.push(inputs[i - 1])
        } else {
            pre
        }
    }
}

/// The row written for one input: a fresh identifier, the writing note
/// as source, and the resolution of the raw target against the notes.
pub open spec fn link_row_for(notes: Seq<NoteR>, inp: LinkInputR, sid: i64, id: int) -> LinkR {
    LinkR {
        id: id as i64,
        source_id: sid,
        target_path: inp.target,
        target_id: resolve_target(notes, inp.target),
        display_text: inp.display,
        line_number: inp.line,
    }
}

/// The rows for the first `i` deduplicated inputs, identifiers assigned
/// from `base` upward.
pub open spec fn new_link_rows(
    notes: Seq<NoteR>,
    ded: Seq<LinkInputR>,
    sid: i64,
    base: int,
    i: int,
) -> Seq<LinkR>
    decreases i,
{
    if i <= 0 {
        Seq::empty()
    } else {
        new_link_rows(notes, ded, sid, base, i - 1).push(
            link_row_for(notes, ded[i - 1], sid, base + i - 1),
        )
    }
}

/// The store model after replacing the links of note `sid` by the given
/// inputs.
pub open spec fn replace_links_model(m: StoreModel, sid: i64, inputs: Seq<LinkInputR>)
    -> StoreModel {
    let kept = links_without_source(m.links, sid, 0);
    let ded = dedup_prefix(inputs, inputs.len() as int);
    StoreModel {
        links: kept + new_link_rows(m.notes, ded, sid, m.next_link_id as int, ded.len() as int),
        next_link_id: (m.next_link_id + ded.len()) as i64,
        ..m
    }
}

// ---------------------------------------------------------------------
// Lemmas
// ---------------------------------------------------------------------

/// Kept links come unchanged from links of other notes and inherit the
/// input's pairwise distinctness.
proof fn lemma_links_without_source_props(links: Seq<LinkR>, sid: i64, i: int)
    requires
        0 <= i <= links.len(),
        forall|a: int, b: int|
            0 <= a < b < links.len() ==> (#[trigger] links[a]).id != (#[trigger] links[b]).id,
        forall|a: int, b: int|
            0 <= a < b < links.len() ==> !((#[trigger] links[a]).source_id == (
            #[trigger] links[b]).source_id && links[a].target_path == links[b].target_path
                && links[a].line_number == links[b].line_number),
    ensures
        ({
            let r = links_without_source(links, sid, i);
            &&& forall|x: int|
                0 <= x < r.len() ==> exists|j: int|
                    i <= j < links.len() && #[trigger] r[x] == links[j] && links[j].source_id
                        != sid
            &&& forall|x: int, y: int|
                0 <= x < y < r.len() ==> (#[trigger] r[x]).id != (#[trigger] r[y]).id
            &&& forall|x: int, y: int|
                0 <= x < y < r.len() ==> !((#[trigger] r[x]).source_id == (
                #[trigger] r[y]).source_id && r[x].target_path == r[y].target_path
                    && r[x].line_number == r[y].line_number)
        }),
    decreases links.len() - i,
{
    if i < links.len() {
        lemma_links_without_source_props(links, sid, i + 1);
        let r = links_without_source(links, sid, i);
        let rest = links_without_source(links, sid, i + 1);
        if links[i].source_id != sid {
            assert(r == seq![links[i]] + rest);
            assert(r[0] == links[i]);
            assert(forall|x: int| 1 <= x < r.len() ==> r[x] == rest[x - 1]);
            assert forall|x: int| 0 <= x < r.len() implies exists|j: int|
                i <= j < links.len() && #[trigger] r[x] == links[j] && links[j].source_id
                    != sid by {
                if x == 0 {
                    assert(r[0] == links[i] && links[i].source_id != sid);
                } else {
                    let j = choose|j: int|
                        i + 1 <= j < links.len() && rest[x - 1] == links[j] && links[j].source_id
                            != sid;
                    assert(r[x] == links[j] && links[j].source_id != sid);
                }
            }
            assert forall|x: int, y: int| 0 <= x < y < r.len() implies (#[trigger] r[x]).id != (
            #[trigger] r[y]).id && !(r[x].source_id == r[y].source_id && r[x].target_path
                == r[y].target_path && r[x].line_number == r[y].line_number) by {
                if x == 0 {
                    let j = choose|j: int|
                        i + 1 <= j < links.len() && rest[y - 1] == links[j] && links[j].source_id
                            != sid;
                    assert(r[y] == links[j]);
                    assert(links[i].id != links[j].id);
                } else {
                    assert(r[x] == rest[x - 1] && r[y] == rest[y - 1]);
                }
            }
        }
    }
}

/// Deduplicated inputs come from the inputs and carry pairwise distinct
/// (target, line) keys; there are at most `i` of them.
proof fn lemma_dedup_props(inputs: Seq<LinkInputR>, i: int)
    requires
        0 <= i <= inputs.len(),
    ensures
        ({
            let r = dedup_prefix(inputs, i);
            &&& r.len() <= i
            &&& forall|x: int|
                0 <= x < r.len() ==> exists|j: int| 0 <= j < i && #[trigger] r[x] == inputs[j]
            &&& forall|x: int, y: int|
                0 <= x < y < r.len() ==> !same_link_key(#[trigger] r[x], #[trigger] r[y])
        }),
    decreases i,
{
    if i > 0 {
        lemma_dedup_props(inputs, i - 1);
        let r = dedup_prefix(inputs, i);
        let pre = dedup_prefix(inputs, i - 1);
        if fresh_at(inputs, i - 1) {
            assert(r == pre.push(inputs[i - 1]));
            assert forall|x: int| 0 <= x < r.len() implies exists|j: int|
                0 <= j < i && #[trigger] r[x] == inputs[j] by {
                if x < pre.len() {
                    let j = choose|j: int| 0 <= j < i - 1 && pre[x] == inputs[j];
                    assert(r[x] == inputs[j]);
                } else {
                    assert(r[x] == inputs[i - 1]);
                }
            }
            assert forall|x: int, y: int| 0 <= x < y < r.len() implies !same_link_key(
                #[trigger] r[x],
                #[trigger] r[y],
            ) by {
                if y < pre.len() {
                    assert(r[x] == pre[x] && r[y] == pre[y]);
                } else {
                    assert(r[y] == inputs[i - 1]);
                    let j = choose|j: int| 0 <= j < i - 1 && pre[x] == inputs[j];
                    assert(r[x] == inputs[j]);
                    assert(!same_link_key(inputs[j], inputs[i - 1]));
                }
            }
        } else {
            assert forall|x: int| 0 <= x < r.len() implies exists|j: int|
                0 <= j < i && #[trigger] r[x] == inputs[j] by {
                let j = choose|j: int| 0 <= j < i - 1 && pre[x] == inputs[j];
                assert(r[x] == inputs[j]);
            }
        }
    }
}

/// Replacing a note's links preserves well-formedness, given the source
/// exists and the fresh identifiers fit.
proof fn lemma_wf_after_replace_links(m: StoreModel, sid: i64, inputs: Seq<LinkInputR>)
    requires
        wf(m),
        note_id_of(m, sid),
        m.next_link_id + dedup_prefix(inputs, inputs.len() as int).len() <= i64::MAX,
    ensures
        wf(replace_links_model(m, sid, inputs)),
{
    let m2 = replace_links_model(m, sid, inputs);
    let kept = links_without_source(m.links, sid, 0);
    let ded = dedup_prefix(inputs, inputs.len() as int);
    let base = m.next_link_id as int;
    let fresh = new_link_rows(m.notes, ded, sid, base, ded.len() as int);
    lemma_links_without_source_props(m.links, sid, 0);
    lemma_dedup_props(inputs, inputs.len() as int);
    lemma_new_link_rows_props(m.notes, ded, sid, base, ded.len() as int);
    assert(m2.links == kept + fresh);
    assert(m2.notes == m.notes);
    // kept rows satisfy the old bounds and references
    assert forall|x: int| 0 <= x < kept.len() implies 0 < (#[trigger] kept[x]).id < base
        && note_id_of(m2, kept[x].source_id) && match kept[x].target_id {
        Some(t) => note_id_of(m2, t),
        None => true,
    } by {
        let j = choose|j: int|
            0 <= j < m.links.len() && kept[x] == #[trigger] m.links[j] && m.links[j].source_id
                != sid;
        assert(note_id_of(m, m.links[j].source_id));
        match m.links[j].target_id {
            Some(t) => {
                assert(note_id_of(m, t));
            },
            None => {},
        }
    }
    // all pairwise facts over the concatenation
    assert forall|x: int, y: int| 0 <= x < y < m2.links.len() implies (#[trigger] m2.links[x]).id
        != (#[trigger] m2.links[y]).id && !(m2.links[x].source_id == m2.links[y].source_id
        && m2.links[x].target_path == m2.links[y].target_path && m2.links[x].line_number
        == m2.links[y].line_number) by {
        if y < kept.len() {
            assert(m2.links[x] == kept[x] && m2.links[y] == kept[y]);
        } else if x >= kept.len() {
            assert(m2.links[x] == fresh[x - kept.len()] && m2.links[y] == fresh[y - kept.len()]);
        } else {
            assert(m2.links[x] == kept[x] && m2.links[y] == fresh[y - kept.len()]);
            let j = choose|j: int|
                0 <= j < m.links.len() && kept[x] == #[trigger] m.links[j] && m.links[j].source_id
                    != sid;
            assert(kept[x].id < base);
            assert(fresh[y - kept.len()].id >= base);
            assert(kept[x].source_id != sid && fresh[y - kept.len()].source_id == sid);
        }
    }
    assert forall|i: int| 0 <= i < m2.links.len() implies 0 < (#[trigger] m2.links[i]).id
        && m2.links[i].id < m2.next_link_id && note_id_of(m2, m2.links[i].source_id) && match m2
        .links[i].target_id {
        Some(t) => note_id_of(m2, t),
        None => true,
    } by {
        if i < kept.len() {
            assert(m2.links[i] == kept[i]);
        } else {
            assert(m2.links[i] == fresh[i - kept.len()]);
        }
    }
    // the other tables are untouched
    assert forall|i: int| 0 <= i < m2.note_tags.len() implies note_id_of(
        m2,
        (#[trigger] m2.note_tags[i]).0,
    ) && tag_id_of(m2, m2.note_tags[i].1) by {
        assert(note_id_of(m, m.note_tags[i].0));
        assert(tag_id_of(m, m.note_tags[i].1));
        let w = choose|w: int| 0 <= w < m.tags.len() && (#[trigger] m.tags[w]).id
            == m.note_tags[i].1;
        assert(m2.tags[w].id == m.note_tags[i].1);
    }
}

/// The freshly built rows carry consecutive identifiers from `base`,
/// the one source, pairwise distinct keys, and resolutions that point
/// at indexed notes.
proof fn lemma_new_link_rows_props(
    notes: Seq<NoteR>,
    ded: Seq<LinkInputR>,
    sid: i64,
    base: int,
    i: int,
)
    requires
        0 <= i <= ded.len(),
        0 < base,
        base + ded.len() <= i64::MAX,
        forall|x: int, y: int|
            0 <= x < y < ded.len() ==> !same_link_key(#[trigger] ded[x], #[trigger] ded[y]),
    ensures
        ({
            let r = new_link_rows(notes, ded, sid, base, i);
            &&& r.len() == i
            &&& forall|x: int| 0 <= x < i ==> (#[trigger] r[x]) == link_row_for(
                notes,
                ded[x],
                sid,
                base + x,
            )
            &&& forall|x: int|
                0 <= x < i ==> (#[trigger] r[x]).id == base + x && r[x].source_id == sid
                    && r[x].target_path == ded[x].target && r[x].line_number == ded[x].line
            &&& forall|x: int|
                0 <= x < i ==> match (#[trigger] r[x]).target_id {
                    Some(t) => exists|w: int|
                        0 <= w < notes.len() && (#[trigger] notes[w]).id == t,
                    None => true,
                }
        }),
    decreases i,
{
    if i > 0 {
        lemma_new_link_rows_props(notes, ded, sid, base, i - 1);
        let r = new_link_rows(notes, ded, sid, base, i);
        assert(r == new_link_rows(notes, ded, sid, base, i - 1).push(
            link_row_for(notes, ded[i - 1], sid, base + i - 1),
        ));
        assert forall|x: int| 0 <= x < i implies match (#[trigger] r[x]).target_id {
            Some(t) => exists|w: int| 0 <= w < notes.len() && (#[trigger] notes[w]).id == t,
            None => true,
        } by {
            assert(r[x] == link_row_for(notes, ded[x], sid, base + x));
            let k = first_where(notes, |n: NoteR| link_matches_note(n.path, ded[x].target));
            lemma_first_where_props(notes, |n: NoteR| link_matches_note(n.path, ded[x].target));
            if k >= 0 {
                assert(notes[k].id == resolve_target(notes, ded[x].target).unwrap());
            }
        }
    }
}

// ---------------------------------------------------------------------
// Operations
// ---------------------------------------------------------------------

fn clone_link(l: &Link) -> (r: Link)
    ensures
        r@ == l@,
{
    Link {
        id: l.id,
        source_id: l.source_id,
        target_path: String::from_str(l.target_path.as_str()),
        target_id: l.target_id,
        display_text: match &l.display_text {
            Some(s) => Some(String::from_str(s.as_str())),
            None => None,
        },
        line_number: l.line_number,
    }
}

/// Find the first note whose path matches the target case-insensitively,
/// as written or with the extension appended; return its identifier.
fn resolve_target_exec(notes: &Vec<crate::store::NoteRow>, target: &String) -> (r: Option<i64>)
    ensures
        r == resolve_target(notes@.map_values(|n: crate::store::NoteRow| n@), target@),
{
    let ghost nv = notes@.map_values(|n: crate::store::NoteRow| n@);
    let ghost p = |n: NoteR| link_matches_note(n.path, target@);
    let tc = chars_of(target.as_str());
    let ft = fold_chars(&tc);
    let mut tmd = chars_of(target.as_str());
    tmd.push('.');
    tmd.push('m');
    tmd.push('d');
    proof {
        assert(tmd@ =~= target@ + md_ext());
    }
    let ftmd = fold_chars(&tmd);
    let n = notes.len();
    let mut j: usize = 0;
    let mut found: usize = n;
    while j < n && found == n
        invariant
            0 <= j <= n,
            n == notes@.len(),
            nv == notes@.map_values(|n: crate::store::NoteRow| n@),
            ft@ == fold(target@),
            ftmd@ == fold(target@ + md_ext()),
            forall|k: int| 0 <= k < j ==> !link_matches_note((#[trigger] nv[k]).path, target@),
            found == n || (found == j && j < n && link_matches_note(nv[j as int].path, target@)),
        decreases n - j, (if found == n { 1int } else { 0int }),
    {
        proof {
            assert(nv[j as int] == notes@[j as int]@);
        }
        let pc = chars_of(notes[j].path.as_str());
        let fp = fold_chars(&pc);
        if chars_eq(&fp, &ftmd) || chars_eq(&fp, &ft) {
            found = j;
        } else {
            proof {
                assert(!link_matches_note(nv[j as int].path, target@));
            }
            j = j + 1;
        }
    }
    proof {
        assert(forall|k: int| 0 <= k < j ==> !p(nv[k]));
        if found < n {
            assert(p(nv[found as int]));
        }
        lemma_first_at_char(nv, p, 0, j as int);
    }
    if found < n {
        Some(notes[found].id)
    } else {
        None
    }
}

impl Store {
    /// Replace every link owned by `source_id` with the given set:
    /// duplicates of a (target, line) pair collapse onto the first, and
    /// each written link is resolved against the indexed notes. Links of
    /// other notes are not re-resolved. Fails when the source note does
    /// not exist or identifiers would run out, leaving the store
    /// unchanged.
    pub fn replace_links(&mut self, source_id: i64, links: &Vec<LinkInput>) -> (r: Result<
        (),
        StoreError,
    >)
        requires
            wf(old(self)@),
        ensures
            wf(final(self)@),
            ({
                let m = old(self)@;
                let inputs = links@.map_values(|l: LinkInput| l@);
                match r {
                    Ok(_) => note_id_of(m, source_id) && inputs.len() <= i64::MAX
                        - m.next_link_id && final(self)@ == replace_links_model(
                        m,
                        source_id,
                        inputs,
                    ),
                    Err(e) => final(self)@ == m && ((e is MissingRow && !note_id_of(
                        m,
                        source_id,
                    )) || (e is IdsExhausted && note_id_of(m, source_id) && inputs.len()
                        > i64::MAX - m.next_link_id)),
                }
            }),
    {
        let ghost m = self@;
        let ghost inputs = links@.map_values(|l: LinkInput| l@);
        proof {
            lemma_first_where_props(m.notes, |n: NoteR| n.id == source_id);
        }
        let sj = find_note_by_id(&self.notes, source_id);
        if sj >= self.notes.len() {
            proof {
                assert(!note_id_of(m, source_id));
            }
            return Err(StoreError::MissingRow);
        }
        proof {
            assert(note_id_of(m, source_id));
        }
        let room = i64::MAX - self.next_link_id;
        if links.len() as u64 > room as u64 {
            return Err(StoreError::IdsExhausted);
        }
        // keep the links of other notes, in order
        let nl = self.links.len();
        let mut new_links: Vec<Link> = Vec::new();
        let mut li: usize = 0;
        while li < nl
            invariant
                0 <= li <= nl,
                nl == self.links@.len(),
                self@.links == m.links,
                m.links.len() == nl as int,
                new_links@.map_values(|l: Link| l@) + links_without_source(
                    m.links,
                    source_id,
                    li as int,
                ) =~= links_without_source(m.links, source_id, 0),
            decreases nl - li,
        {
            let ghost pre = new_links@.map_values(|l: Link| l@);
            proof {
                assert(m.links[li as int] == self.links@[li as int]@);
            }
            if self.links[li].source_id != source_id {
                let nrow = clone_link(&self.links[li]);
                new_links.push(nrow);
                proof {
                    assert(new_links@.map_values(|l: Link| l@) =~= pre + seq![
                        m.links[li as int],
                    ]);
                    assert(links_without_source(m.links, source_id, li as int) == seq![
                        m.links[li as int],
                    ] + links_without_source(m.links, source_id, li + 1));
                }
            } else {
                proof {
                    assert(links_without_source(m.links, source_id, li as int)
                        == links_without_source(m.links, source_id, li + 1));
                }
            }
            li = li + 1;
        }
        self.links = new_links;
        let ghost kept = links_without_source(m.links, source_id, 0);
        let ghost base = m.next_link_id as int;
        // write the new set, first occurrence of each (target, line) only
        let n_in = links.len();
        let mut i: usize = 0;
        while i < n_in
            invariant
                0 <= i <= n_in,
                n_in == links@.len(),
                inputs == links@.map_values(|l: LinkInput| l@),
                inputs.len() == n_in as int,
                self@.notes == m.notes,
                self@.tags == m.tags,
                self@.note_tags == m.note_tags,
                self@.fts == m.fts,
                self@.next_note_id == m.next_note_id,
                self@.next_tag_id == m.next_tag_id,
                kept == links_without_source(m.links, source_id, 0),
                base == m.next_link_id as int,
                base + inputs.len() <= i64::MAX,
                dedup_prefix(inputs, i as int).len() <= i as int,
                self@.next_link_id as int == base + dedup_prefix(inputs, i as int).len(),
                self@.links =~= kept + new_link_rows(
                    m.notes,
                    dedup_prefix(inputs, i as int),
                    source_id,
                    base,
                    dedup_prefix(inputs, i as int).len() as int,
                ),
            decreases n_in - i,
        {
            proof {
                assert(inputs[i as int] == links@[i as int]@);
            }
            // is this (target, line) pair already written?
            let mut dup = false;
            let mut j: usize = 0;
            while j < i && !dup
                invariant
                    0 <= j <= i < n_in,
                    n_in == links@.len(),
                    inputs.len() == n_in as int,
                    inputs == links@.map_values(|l: LinkInput| l@),
                    dup ==> exists|j2: int|
                        0 <= j2 < i && same_link_key(#[trigger] inputs[j2], inputs[i as int]),
                    !dup ==> forall|j2: int|
                        0 <= j2 < j ==> !same_link_key(#[trigger] inputs[j2], inputs[i as int]),
                decreases i - j, (if dup { 0int } else { 1int }),
            {
                proof {
                    assert(inputs[j as int] == links@[j as int]@);
                }
                if str_eq(links[j].target.as_str(), links[i].target.as_str())
                    && opt_i32_eq(links[j].line, links[i].line) {
                    dup = true;
                    proof {
                        assert(same_link_key(inputs[j as int], inputs[i as int]));
                    }
                } else {
                    j = j + 1;
                }
            }
            let ghost ded_pre = dedup_prefix(inputs, i as int);
            if !dup {
                proof {
                    assert(fresh_at(inputs, i as int));
                    assert(dedup_prefix(inputs, i + 1) == ded_pre.push(inputs[i as int]));
                }
                let target_copy = String::from_str(links[i].target.as_str());
                let resolved = resolve_target_exec(&self.notes, &target_copy);
                let row = Link {
                    id: self.next_link_id,
                    source_id: source_id,
                    target_path: target_copy,
                    target_id: resolved,
                    display_text: match &links[i].display {
                        Some(s) => Some(String::from_str(s.as_str())),
                        None => None,
                    },
                    line_number: links[i].line,
                };
                let ghost rowv = row@;
                let ghost lv_pre = self@.links;
                self.links.push(row);
                self.next_link_id = self.next_link_id + 1;
                proof {
                    lemma_dedup_props(inputs, i + 1);
                    assert(self@.links =~= lv_pre.push(rowv));
                    assert(rowv == link_row_for(
                        m.notes,
                        inputs[i as int],
                        source_id,
                        base + ded_pre.len(),
                    ));
                    let dednew = dedup_prefix(inputs, i + 1);
                    assert(new_link_rows(
                        m.notes,
                        dednew,
                        source_id,
                        base,
                        dednew.len() as int,
                    ) == new_link_rows(m.notes, dednew, source_id, base, dednew.len() - 1).push(
                        link_row_for(m.notes, dednew[dednew.len() - 1], source_id, base
                            + dednew.len() - 1),
                    ));
                    lemma_new_link_rows_prefix_stable(m.notes, ded_pre, dednew, source_id, base);
                    assert(dednew[dednew.len() - 1] == inputs[i as int]);
                    assert(link_row_for(m.notes, dednew[dednew.len() - 1], source_id, base
                        + dednew.len() - 1) == rowv);
                    assert(lv_pre.push(rowv) =~= kept + new_link_rows(
                        m.notes,
                        dednew,
                        source_id,
                        base,
                        dednew.len() as int,
                    ));
                    assert(self@.links =~= kept + new_link_rows(
                        m.notes,
                        dednew,
                        source_id,
                        base,
                        dednew.len() as int,
                    ));
                }
            } else {
                proof {
                    assert(!fresh_at(inputs, i as int));
                    assert(dedup_prefix(inputs, i + 1) == ded_pre);
                }
            }
            i = i + 1;
        }
        proof {
            assert(final(self)@ == self@);
            assert(self@ =~= replace_links_model(m, source_id, inputs));
            lemma_wf_after_replace_links(m, source_id, inputs);
        }
        Ok(())
    }

    /// The links owned by a note, in table order, resolved or not.
    pub fn get_outlinks(&self, source_id: i64) -> (r: Vec<Link>)
        ensures
            r@.map_values(|l: Link| l@) == links_with_source(self@.links, source_id, 0),
    {
        let nl = self.links.len();
        let mut out: Vec<Link> = Vec::new();
        let mut li: usize = 0;
        while li < nl
            invariant
                0 <= li <= nl,
                nl == self.links@.len(),
                self@.links.len() == nl as int,
                out@.map_values(|l: Link| l@) + links_with_source(
                    self@.links,
                    source_id,
                    li as int,
                ) =~= links_with_source(self@.links, source_id, 0),
            decreases nl - li,
        {
            let ghost pre = out@.map_values(|l: Link| l@);
            proof {
                assert(self@.links[li as int] == self.links@[li as int]@);
            }
            if self.links[li].source_id == source_id {
                let nrow = clone_link(&self.links[li]);
                out.push(nrow);
                proof {
                    assert(out@.map_values(|l: Link| l@) =~= pre + seq![
                        self@.links[li as int],
                    ]);
                    assert(links_with_source(self@.links, source_id, li as int) == seq![
                        self@.links[li as int],
                    ] + links_with_source(self@.links, source_id, li + 1));
                }
            } else {
                proof {
                    assert(links_with_source(self@.links, source_id, li as int)
                        == links_with_source(self@.links, source_id, li + 1));
                }
            }
            li = li + 1;
        }
        proof {
            assert(links_with_source(self@.links, source_id, li as int)
                =~= Seq::<LinkR>::empty());
            assert(out@.map_values(|l: Link| l@) =~= links_with_source(
                self@.links,
                source_id,
                0,
            ));
        }
        out
    }
}

// ---------------------------------------------------------------------
// Backlinks
// ---------------------------------------------------------------------

/// One backlink: a link elsewhere in the corpus whose raw target
/// matches a given path, joined with its owning note.
pub struct Backlink {
    pub source_path: String,
    pub source_title: String,
    pub line_number: Option<i32>,
    pub display_text: Option<String>,
    /// Surrounding text from the source note, filled in by callers with
    /// file access; the store returns `None`.
    pub context: Option<String>,
}

#[verifier::ext_equal]
pub struct BacklinkR {
    pub source_path: Seq<char>,
    pub source_title: Seq<char>,
    pub line_number: Option<i32>,
    pub display_text: Option<Seq<char>>,
    pub context: Option<Seq<char>>,
}

impl View for Backlink {
    type V = BacklinkR;

    open spec fn view(&self) -> BacklinkR {
        BacklinkR {
            source_path: self.source_path@,
            source_title: self.source_title@,
            line_number: self.line_number,
            display_text: view_opt_string(self.display_text),
            context: view_opt_string(self.context),
        }
    }
}

/// Whether a raw link target matches a queried path: equal after ASCII
/// case folding, as written or with the extension appended. The match
/// is syntactic; the link need not be resolved.
pub open spec fn backlink_match(target_path: Seq<char>, query: Seq<char>) -> bool {
    fold(target_path) == fold(query) || fold(target_path + md_ext()) == fold(query)
}

/// The backlink record of one link, joined with its source note.
pub open spec fn backlink_of(m: StoreModel, l: LinkR) -> BacklinkR {
    let k = note_idx_by_id(m.notes, l.source_id);
    BacklinkR {
        source_path: m.notes[k].path,
        source_title: m.notes[k].title,
        line_number: l.line_number,
        display_text: l.display_text,
        context: None,
    }
}

/// All backlinks for a queried path, in link-table order.
pub open spec fn backlinks_of(m: StoreModel, query: Seq<char>, i: int) -> Seq<BacklinkR>
    decreases m.links.len() - i,
{
    if i < 0 || i >= m.links.len() {
        Seq::empty()
    } else {
        let rest = backlinks_of(m, query, i + 1);
        if backlink_match(m.links[i].target_path, query) {
            seq![backlink_of(m, m.links[i])] + rest
        } else {
            rest
        }
    }
}

/// The modification time of the note at a path, if one is indexed.
pub open spec fn modified_of_path(m: StoreModel, path: Seq<char>) -> Option<Seq<char>> {
    let k = note_idx_by_path(m.notes, path);
    if k >= 0 {
        m.notes[k].modified_at
    } else {
        None
    }
}

/// Backlink output order: the one whose source note was modified
/// strictly later stands first; sources without a modification time
/// come last.
pub open spec fn bl_before(m: StoreModel, a: BacklinkR, b: BacklinkR) -> bool {
    match (modified_of_path(m, a.source_path), modified_of_path(m, b.source_path)) {
        (Some(x), Some(y)) => lex_lt(y, x),
        (Some(_), None) => true,
        _ => false,
    }
}

/// A backlink carrying its sort key: the source note's modification
/// time.
struct KeyedBacklink {
    modified: Option<String>,
    bl: Backlink,
}

impl SortOrd for KeyedBacklink {
    closed spec fn before(self, other: Self) -> bool {
        match (view_opt_string(self.modified), view_opt_string(other.modified)) {
            (Some(x), Some(y)) => lex_lt(y, x),
            (Some(_), None) => true,
            _ => false,
        }
    }

    proof fn lemma_asym(a: Self, b: Self) {
        match (view_opt_string(a.modified), view_opt_string(b.modified)) {
            (Some(x), Some(y)) => {
                lemma_lex_asym(x, y);
            },
            _ => {},
        }
    }

    fn lt(&self, other: &Self) -> (r: bool) {
        match (&self.modified, &other.modified) {
            (Some(x), Some(y)) => {
                let xc = chars_of(x.as_str());
                let yc = chars_of(y.as_str());
                lex_lt_exec(&yc, &xc)
            },
            (Some(_), None) => true,
            _ => false,
        }
    }
}

/// The key a backlink should carry: the modification time of the note
/// at its source path.
spec fn key_ok(m: StoreModel, kb: KeyedBacklink) -> bool {
    view_opt_string(kb.modified) == modified_of_path(m, kb.bl@.source_path)
}

fn clone_backlink(b: &Backlink) -> (r: Backlink)
    ensures
        r@ == b@,
{
    Backlink {
        source_path: String::from_str(b.source_path.as_str()),
        source_title: String::from_str(b.source_title.as_str()),
        line_number: b.line_number,
        display_text: match &b.display_text {
            Some(s) => Some(String::from_str(s.as_str())),
            None => None,
        },
        context: match &b.context {
            Some(s) => Some(String::from_str(s.as_str())),
            None => None,
        },
    }
}

/// In a well-formed store, looking a note's own path up finds that
/// note.
proof fn lemma_path_lookup_self(m: StoreModel, k: int)
    requires
        wf(m),
        0 <= k < m.notes.len(),
    ensures
        note_idx_by_path(m.notes, m.notes[k].path) == k,
{
    let p = |n: NoteR| n.path == m.notes[k].path;
    lemma_first_where_props(m.notes, p);
    let f = first_where(m.notes, p);
    assert(p(m.notes[k]));
    if f != k {
        assert(0 <= f < m.notes.len());
        assert(m.notes[f].path == m.notes[k].path);
    }
}

impl Store {
    /// All links anywhere in the corpus whose raw target matches the
    /// given path (case-insensitively, with or without the note
    /// extension), each joined with its owning note, ordered with the
    /// most recently modified owning note first.
    pub fn get_backlinks(&self, path: &str) -> (r: Vec<Backlink>)
        requires
            wf(self@),
        ensures
            r@.map_values(|b: Backlink| b@).to_multiset() == backlinks_of(
                self@,
                path@,
                0,
            ).to_multiset(),
            forall|i: int|
                0 <= i < r@.len() - 1 ==> !bl_before(self@, (#[trigger] r@[i + 1])@, r@[i]@),
    {
        let ghost m = self@;
        let qc = chars_of(path);
        let fq = fold_chars(&qc);
        let nl = self.links.len();
        let mut keyed: Vec<KeyedBacklink> = Vec::new();
        let mut li: usize = 0;
        while li < nl
            invariant
                0 <= li <= nl,
                nl == self.links@.len(),
                self@ == m,
                wf(m),
                m.links.len() == nl as int,
                fq@ == fold(path@),
                keyed@.map_values(|kb: KeyedBacklink| kb.bl@) + backlinks_of(m, path@, li as int)
                    =~= backlinks_of(m, path@, 0),
                forall|x: int| 0 <= x < keyed@.len() ==> key_ok(m, #[trigger] keyed@[x]),
            decreases nl - li,
        {
            let ghost pre = keyed@.map_values(|kb: KeyedBacklink| kb.bl@);
            proof {
                assert(m.links[li as int] == self.links@[li as int]@);
            }
            let tc = chars_of(self.links[li].target_path.as_str());
            let ftc = fold_chars(&tc);
            let mut tmd = chars_of(self.links[li].target_path.as_str());
            tmd.push('.');
            tmd.push('m');
            tmd.push('d');
            proof {
                assert(tmd@ =~= m.links[li as int].target_path + md_ext());
            }
            let ftmd = fold_chars(&tmd);
            if chars_eq(&ftc, &fq) || chars_eq(&ftmd, &fq) {
                proof {
                    assert(backlink_match(m.links[li as int].target_path, path@));
                    lemma_first_where_props(m.notes, |n: NoteR| n.id == m.links[
                        li as int].source_id);
                    assert(note_id_of(m, m.links[li as int].source_id));
                }
                let sj = find_note_by_id(&self.notes, self.links[li].source_id);
                proof {
                    assert(note_idx_by_id(m.notes, m.links[li as int].source_id) >= 0);
                }
                let note = &self.notes[sj];
                proof {
                    assert(m.notes[sj as int] == self.notes@[sj as int]@);
                    lemma_path_lookup_self(m, sj as int);
                }
                let kb = KeyedBacklink {
                    modified: match &note.modified_at {
                        Some(s) => Some(String::from_str(s.as_str())),
                        None => None,
                    },
                    bl: Backlink {
                        source_path: String::from_str(note.path.as_str()),
                        source_title: String::from_str(note.title.as_str()),
                        line_number: self.links[li].line_number,
                        display_text: match &self.links[li].display_text {
                            Some(s) => Some(String::from_str(s.as_str())),
                            None => None,
                        },
                        context: None,
                    },
                };
                let ghost kbv = kb;
                keyed.push(kb);
                proof {
                    assert(kbv.bl@ == backlink_of(m, m.links[li as int]));
                    assert(key_ok(m, kbv));
                    assert(keyed@.map_values(|kb: KeyedBacklink| kb.bl@) =~= pre + seq![
                        backlink_of(m, m.links[li as int]),
                    ]);
                    assert(backlinks_of(m, path@, li as int) == seq![
                        backlink_of(m, m.links[li as int]),
                    ] + backlinks_of(m, path@, li + 1));
                }
            } else {
                proof {
                    assert(!backlink_match(m.links[li as int].target_path, path@));
                    assert(backlinks_of(m, path@, li as int) == backlinks_of(m, path@, li + 1));
                }
            }
            li = li + 1;
        }
        proof {
            assert(backlinks_of(m, path@, li as int) =~= Seq::<BacklinkR>::empty());
            assert(keyed@.map_values(|kb: KeyedBacklink| kb.bl@) =~= backlinks_of(m, path@, 0));
        }
        let ghost keyed_v = keyed@;
        let sorted = sort_rows(keyed);
        proof {
            crate::store::lemma_multiset_map(keyed_v, sorted@, |kb: KeyedBacklink| kb.bl@);
            crate::store::lemma_multiset_all(keyed_v, sorted@, |kb: KeyedBacklink| key_ok(m, kb));
            assert(forall|x: int| 0 <= x < sorted@.len() ==> key_ok(m, #[trigger] sorted@[x]));
            assert(sorted@.map_values(|kb: KeyedBacklink| kb.bl@).to_multiset() == backlinks_of(
                m,
                path@,
                0,
            ).to_multiset());
        }
        let ns = sorted.len();
        let mut r: Vec<Backlink> = Vec::new();
        let mut i: usize = 0;
        while i < ns
            invariant
                0 <= i <= ns,
                ns == sorted@.len(),
                r@.len() == i as int,
                forall|j: int| 0 <= j < i ==> (#[trigger] r@[j])@ == sorted@[j].bl@,
            decreases ns - i,
        {
            let b = clone_backlink(&sorted[i].bl);
            proof {
                assert(b@ == sorted@[i as int].bl@);
            }
            r.push(b);
            i = i + 1;
        }
        proof {
            let sbl = sorted@.map_values(|kb: KeyedBacklink| kb.bl@);
            let rbl = r@.map_values(|b: Backlink| b@);
            assert forall|j: int| 0 <= j < r@.len() implies #[trigger] rbl[j] == sbl[j] by {
                assert(r@[j]@ == sorted@[j].bl@);
            }
            assert(rbl =~= sbl);
            assert forall|i2: int| 0 <= i2 < r@.len() - 1 implies !bl_before(
                m,
                (#[trigger] r@[i2 + 1])@,
                r@[i2]@,
            ) by {
                assert(!(sorted@[i2 + 1].before(sorted@[i2])));
                assert(key_ok(m, sorted@[i2]));
                assert(key_ok(m, sorted@[i2 + 1]));
                assert(r@[i2]@ == sorted@[i2].bl@);
                assert(r@[i2 + 1]@ == sorted@[i2 + 1].bl@);
            }
        }
        r
    }
}

// ---------------------------------------------------------------------
// Laws of the backlinks
// ---------------------------------------------------------------------

/// Every link whose raw target matches yields a backlink record.
pub proof fn lemma_backlinks_member(m: StoreModel, query: Seq<char>, i: int, j: int)
    requires
        0 <= i <= j < m.links.len(),
        backlink_match(m.links[j].target_path, query),
    ensures
        exists|x: int|
            0 <= x < backlinks_of(m, query, i).len() && #[trigger] backlinks_of(m, query, i)[x]
                == backlink_of(m, m.links[j]),
    decreases j - i,
{
    let r = backlinks_of(m, query, i);
    let rest = backlinks_of(m, query, i + 1);
    if i == j {
        assert(r[0] == backlink_of(m, m.links[j]));
    } else {
        lemma_backlinks_member(m, query, i + 1, j);
        let x = choose|x: int|
            0 <= x < rest.len() && #[trigger] rest[x] == backlink_of(m, m.links[j]);
        if backlink_match(m.links[i].target_path, query) {
            assert(r[x + 1] == rest[x]);
        } else {
            assert(r[x] == rest[x]);
        }
    }
}

/// Renaming a note rewrites its path in place and touches no link: a
/// link elsewhere that referred to the old path keeps its raw target,
/// and a backlink query for the old path still yields a record for it
/// — resolution is not retroactive, and stays so until the linking
/// note is itself re-indexed.
pub proof fn lemma_rename_keeps_backlinks(m: StoreModel, k: int, new_path: Seq<char>, j: int)
    requires
        wf(m),
        0 <= k < m.notes.len(),
        0 <= j < m.links.len(),
        backlink_match(m.links[j].target_path, m.notes[k].path),
    ensures
        ({
            let m2 = StoreModel {
                notes: m.notes.update(k, NoteR { path: new_path, ..m.notes[k] }),
                ..m
            };
            &&& m2.links == m.links
            &&& backlink_match(m2.links[j].target_path, m.notes[k].path)
            &&& exists|x: int|
                0 <= x < backlinks_of(m2, m.notes[k].path, 0).len() && #[trigger] backlinks_of(
                    m2,
                    m.notes[k].path,
                    0,
                )[x] == backlink_of(m2, m2.links[j])
        }),
{
    let m2 = StoreModel {
        notes: m.notes.update(k, NoteR { path: new_path, ..m.notes[k] }),
        ..m
    };
    lemma_backlinks_member(m2, m.notes[k].path, 0, j);
}

/// After one more input is deduplicated, the rows built for the shorter
/// prefix are a prefix of the rows built for the longer one.
proof fn lemma_new_link_rows_prefix_stable(
    notes: Seq<NoteR>,
    ded_pre: Seq<LinkInputR>,
    dednew: Seq<LinkInputR>,
    sid: i64,
    base: int,
)
    requires
        dednew == ded_pre.push(dednew[dednew.len() - 1]),
        dednew.len() == ded_pre.len() + 1,
    ensures
        new_link_rows(notes, dednew, sid, base, dednew.len() - 1) == new_link_rows(
            notes,
            ded_pre,
            sid,
            base,
            ded_pre.len() as int,
        ),
{
    lemma_new_link_rows_agree(notes, ded_pre, dednew, sid, base, ded_pre.len() as int);
}

/// Building rows reads only the first `i` inputs.
proof fn lemma_new_link_rows_agree(
    notes: Seq<NoteR>,
    a: Seq<LinkInputR>,
    b: Seq<LinkInputR>,
    sid: i64,
    base: int,
    i: int,
)
    requires
        0 <= i <= a.len(),
        i <= b.len(),
        forall|x: int| 0 <= x < i ==> a[x] == b[x],
    ensures
        new_link_rows(notes, a, sid, base, i) == new_link_rows(notes, b, sid, base, i),
    decreases i,
{
    if i > 0 {
        lemma_new_link_rows_agree(notes, a, b, sid, base, i - 1);
    }
}

/// Equality of optional line numbers.
fn opt_i32_eq(a: Option<i32>, b: Option<i32>) -> (r: bool)
    ensures
        r == (a == b),
{
    match (a, b) {
        (Some(x), Some(y)) => x == y,
        (None, None) => true,
        _ => false,
    }
}

} // verus!
