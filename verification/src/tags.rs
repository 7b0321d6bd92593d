//! Tag rows and note-tag associations: case-insensitive tag identity
//! with the first-seen casing kept as canonical, wholesale replacement
//! of a note's associations, and the tag queries.

use vstd::prelude::*;
use crate::store::{
    Store, StoreModel, StoreError, TagRow, TagR, NoteR, NoteTagRow, wf, first_where,
    lemma_first_at_char, lemma_first_where_props, note_id_of, tag_id_of,
    SortOrd, sort_rows, sorted_rows,
};
use crate::text::{
    fold, fold_chars, chars_of, chars_eq, lex_lt, lex_lt_exec, lemma_lex_asym,
    lemma_lex_irrefl,
};
use crate::notes::{find_note_by_id, note_tags_surviving};

verus! {

// ---------------------------------------------------------------------
// Specs
// ---------------------------------------------------------------------

/// First index of the tag whose name folds to the same as `name`, or
/// `-1`: two spellings differing only in ASCII case are one tag.
pub open spec fn tag_idx_ci(tags: Seq<TagR>, name: Seq<char>) -> int {
    first_where(tags, |t: TagR| fold(t.name) == fold(name))
}

/// First index of the tag with this identifier, or `-1`.
pub open spec fn tag_idx_by_id(tags: Seq<TagR>, id: i64) -> int {
    first_where(tags, |t: TagR| t.id == id)
}

/// Whether a pair occurs in an association list.
pub open spec fn pair_in(assocs: Seq<(i64, i64)>, p: (i64, i64)) -> bool {
    exists|i: int| 0 <= i < assocs.len() && #[trigger] assocs[i] == p
}

/// Process the first `i` tag names for note `nid`: each name finds or
/// creates its tag, and the association is added once. The result is
/// the tag table, the next tag identifier, and the new associations.
pub open spec fn apply_tag_names(
    tags: Seq<TagR>,
    next: int,
    assocs: Seq<(i64, i64)>,
    nid: i64,
    names: Seq<Seq<char>>,
    i: int,
) -> (Seq<TagR>, int, Seq<(i64, i64)>)
    decreases i,
{
    if i <= 0 {
        (tags, next, assocs)
    } else {
        let prev = apply_tag_names(tags, next, assocs, nid, names, i - 1);
        let name = names[i - 1];
        let k = tag_idx_ci(prev.0, name);
        if k >= 0 {
            let tid = prev.0[k].id;
            if pair_in(prev.2, (nid, tid)) {
                prev
            } else {
                (prev.0, prev.1, prev.2.push((nid, tid)))
            }
        } else {
            (
                prev.0.push(TagR { id: prev.1 as i64, name: name }),
                prev.1 + 1,
                prev.2.push((nid, prev.1 as i64)),
            )
        }
    }
}

/// The store model after replacing note `nid`'s tag associations by the
/// given names.
pub open spec fn set_note_tags_model(m: StoreModel, nid: i64, names: Seq<Seq<char>>)
    -> StoreModel {
    let kept = note_tags_surviving(m.note_tags, nid, 0);
    let a = apply_tag_names(m.tags, m.next_tag_id as int, Seq::empty(), nid, names,
        names.len() as int);
    StoreModel { tags: a.0, next_tag_id: a.1 as i64, note_tags: kept + a.2, ..m }
}

/// The name of the tag with this identifier, or the empty name.
pub open spec fn tag_name_of(tags: Seq<TagR>, tid: i64) -> Seq<char> {
    let k = tag_idx_by_id(tags, tid);
    if k >= 0 {
        tags[k].name
    } else {
        Seq::empty()
    }
}

/// The names of the tags of a note, in association order.
pub open spec fn note_tag_names(m: StoreModel, nid: i64, i: int) -> Seq<Seq<char>>
    decreases m.note_tags.len() - i,
{
    if i < 0 || i >= m.note_tags.len() {
        Seq::empty()
    } else {
        let rest = note_tag_names(m, nid, i + 1);
        if m.note_tags[i].0 == nid {
            seq![tag_name_of(m.tags, m.note_tags[i].1)] + rest
        } else {
            rest
        }
    }
}

/// How many notes carry the tag with this identifier.
pub open spec fn count_assocs(nts: Seq<(i64, i64)>, tid: i64, i: int) -> int
    decreases nts.len() - i,
{
    if i < 0 || i >= nts.len() {
        0
    } else {
        (if nts[i].1 == tid {
            1int
        } else {
            0int
        }) + count_assocs(nts, tid, i + 1)
    }
}

/// One tag with the number of notes carrying it.
pub struct TagInfo {
    pub id: i64,
    pub name: String,
    pub count: i32,
}

#[verifier::ext_equal]
pub struct TagInfoR {
    pub id: i64,
    pub name: Seq<char>,
    pub count: i32,
}

impl View for TagInfo {
    type V = TagInfoR;

    open spec fn view(&self) -> TagInfoR {
        TagInfoR { id: self.id, name: self.name@, count: self.count }
    }
}

/// The count clipped to what the count field holds.
pub open spec fn clip_count(c: int) -> i32 {
    if c > i32::MAX {
        i32::MAX
    } else {
        c as i32
    }
}

/// The tags carried by at least one note, with counts, in table order.
pub open spec fn tag_infos(m: StoreModel, i: int) -> Seq<TagInfoR>
    decreases m.tags.len() - i,
{
    if i < 0 || i >= m.tags.len() {
        Seq::empty()
    } else {
        let rest = tag_infos(m, i + 1);
        let c = count_assocs(m.note_tags, m.tags[i].id, 0);
        if c > 0 {
            seq![TagInfoR { id: m.tags[i].id, name: m.tags[i].name, count: clip_count(c) }]
                + rest
        } else {
            rest
        }
    }
}

/// The notes carrying the tag with this identifier, in association
/// order.
pub open spec fn notes_with_tag(nts: Seq<(i64, i64)>, tid: i64, i: int) -> Seq<i64>
    decreases nts.len() - i,
{
    if i < 0 || i >= nts.len() {
        Seq::empty()
    } else {
        let rest = notes_with_tag(nts, tid, i + 1);
        if nts[i].1 == tid {
            seq![nts[i].0] + rest
        } else {
            rest
        }
    }
}

// ---------------------------------------------------------------------
// Ordering
// ---------------------------------------------------------------------

impl SortOrd for String {
    open spec fn before(self, other: Self) -> bool {
        lex_lt(fold(self@), fold(other@))
    }

    proof fn lemma_asym(a: Self, b: Self) {
        lemma_lex_asym(fold(a@), fold(b@));
    }

    fn lt(&self, other: &Self) -> (r: bool) {
        let ac = chars_of(self.as_str());
        let bc = chars_of(other.as_str());
        let fa = fold_chars(&ac);
        let fb = fold_chars(&bc);
        lex_lt_exec(&fa, &fb)
    }
}

impl SortOrd for TagInfo {
    open spec fn before(self, other: Self) -> bool {
        lex_lt(fold(self@.name), fold(other@.name)) || (fold(self@.name) == fold(other@.name)
            && self@.id < other@.id)
    }

    proof fn lemma_asym(a: Self, b: Self) {
        lemma_lex_asym(fold(a@.name), fold(b@.name));
        lemma_lex_irrefl(fold(a@.name));
        lemma_lex_irrefl(fold(b@.name));
    }

    fn lt(&self, other: &Self) -> (r: bool) {
        let ac = chars_of(self.name.as_str());
        let bc = chars_of(other.name.as_str());
        let fa = fold_chars(&ac);
        let fb = fold_chars(&bc);
        if lex_lt_exec(&fa, &fb) {
            true
        } else if chars_eq(&fa, &fb) {
            self.id < other.id
        } else {
            false
        }
    }
}

// ---------------------------------------------------------------------
// Executable lookups
// ---------------------------------------------------------------------

/// Find the index of the tag matching `name` case-insensitively, or the
/// table length.
fn find_tag_ci(tags: &Vec<TagRow>, name_folded: &Vec<char>, ghost_name: Ghost<Seq<char>>) -> (r:
    usize)
    requires
        name_folded@ == fold(ghost_name@),
    ensures
        ({
            let tv = tags@.map_values(|t: TagRow| t@);
            let k = tag_idx_ci(tv, ghost_name@);
            if k >= 0 {
                r as int == k
            } else {
                r as int == tv.len()
            }
        }),
{
    let ghost tv = tags@.map_values(|t: TagRow| t@);
    let ghost p = |t: TagR| fold(t.name) == fold(ghost_name@);
    let n = tags.len();
    let mut j: usize = 0;
    let mut found: usize = n;
    while j < n && found == n
        invariant
            0 <= j <= n,
            n == tags@.len(),
            tv == tags@.map_values(|t: TagRow| t@),
            name_folded@ == fold(ghost_name@),
            forall|k: int| 0 <= k < j ==> fold((#[trigger] tv[k]).name) != fold(ghost_name@),
            found == n || (found == j && j < n && fold(tv[j as int].name) == fold(ghost_name@)),
        decreases n - j, (if found == n { 1int } else { 0int }),
    {
        proof {
            assert(tv[j as int] == tags@[j as int]@);
        }
        let nc = chars_of(tags[j].name.as_str());
        let fn_ = fold_chars(&nc);
        if chars_eq(&fn_, name_folded) {
            found = j;
        } else {
            j = j + 1;
        }
    }
    proof {
        assert(forall|k: int| 0 <= k < j ==> !p(tv[k]));
        if found < n {
            assert(p(tv[found as int]));
        }
        lemma_first_at_char(tv, p, 0, j as int);
    }
    if found < n {
        found
    } else {
        n
    }
}

/// Find the index of the tag with this identifier, or the table length.
fn find_tag_by_id(tags: &Vec<TagRow>, id: i64) -> (r: usize)
    ensures
        ({
            let tv = tags@.map_values(|t: TagRow| t@);
            let k = tag_idx_by_id(tv, id);
            if k >= 0 {
                r as int == k
            } else {
                r as int == tv.len()
            }
        }),
{
    let ghost tv = tags@.map_values(|t: TagRow| t@);
    let ghost p = |t: TagR| t.id == id;
    let n = tags.len();
    let mut j: usize = 0;
    while j < n && tags[j].id != id
        invariant
            0 <= j <= n,
            n == tags@.len(),
            tv == tags@.map_values(|t: TagRow| t@),
            forall|k: int| 0 <= k < j ==> (#[trigger] tv[k]).id != id,
        decreases n - j,
    {
        proof {
            assert(tv[j as int] == tags@[j as int]@);
        }
        j = j + 1;
    }
    proof {
        if j < n {
            assert(tv[j as int] == tags@[j as int]@);
        }
        assert(forall|k: int| 0 <= k < j ==> !p(tv[k]));
        lemma_first_at_char(tv, p, 0, j as int);
    }
    j
}

// ---------------------------------------------------------------------
// Lemmas
// ---------------------------------------------------------------------

/// Appending a fresh tag row with an unseen folded name preserves
/// well-formedness.
proof fn lemma_wf_after_tag_insert(m: StoreModel, m2: StoreModel, nr: TagR)
    requires
        wf(m),
        m.next_tag_id < i64::MAX,
        tag_idx_ci(m.tags, nr.name) == -1,
        nr.id == m.next_tag_id,
        m2.tags == m.tags.push(nr),
        m2.notes == m.notes,
        m2.links == m.links,
        m2.note_tags == m.note_tags,
        m2.fts == m.fts,
        m2.next_note_id == m.next_note_id,
        m2.next_link_id == m.next_link_id,
        m2.next_tag_id == m.next_tag_id + 1,
    ensures
        wf(m2),
{
    lemma_first_where_props(m.tags, |t: TagR| fold(t.name) == fold(nr.name));
    assert(forall|i: int| 0 <= i < m.tags.len() ==> fold((#[trigger] m.tags[i]).name) != fold(
        nr.name,
    ));
    assert(forall|i: int| 0 <= i < m.tags.len() ==> #[trigger] m2.tags[i] == m.tags[i]);
    assert(m2.tags[m.tags.len() as int] == nr);
    assert forall|i: int| 0 <= i < m2.note_tags.len() implies note_id_of(
        m2,
        (#[trigger] m2.note_tags[i]).0,
    ) && tag_id_of(m2, m2.note_tags[i].1) by {
        assert(note_id_of(m, m.note_tags[i].0));
        let wn = choose|w: int| 0 <= w < m.notes.len() && (#[trigger] m.notes[w]).id
            == m.note_tags[i].0;
        assert(m2.notes[wn].id == m.note_tags[i].0);
        let w = choose|w: int| 0 <= w < m.tags.len() && (#[trigger] m.tags[w]).id
            == m.note_tags[i].1;
        assert(m2.tags[w].id == m.note_tags[i].1);
    }
    assert forall|i: int| 0 <= i < m2.links.len() implies note_id_of(
        m2,
        (#[trigger] m2.links[i]).source_id,
    ) && match m2.links[i].target_id {
        Some(t) => note_id_of(m2, t),
        None => true,
    } by {
        assert(note_id_of(m, m.links[i].source_id));
        let w = choose|w: int| 0 <= w < m.notes.len() && (#[trigger] m.notes[w]).id
            == m.links[i].source_id;
        assert(m2.notes[w].id == m.links[i].source_id);
        match m.links[i].target_id {
            Some(t) => {
                assert(note_id_of(m, t));
                let w2 = choose|w2: int| 0 <= w2 < m.notes.len() && (#[trigger] m.notes[w2]).id
                    == t;
                assert(m2.notes[w2].id == t);
            },
            None => {},
        }
    }
}

/// Processing tag names grows the tag table at its end, allocates at
/// most one identifier per name, keeps the table's invariants, and
/// yields associations of the one note with pairwise distinct,
/// existing tags.
proof fn lemma_apply_props(
    tags0: Seq<TagR>,
    next0: int,
    nid: i64,
    names: Seq<Seq<char>>,
    i: int,
)
    requires
        0 <= i <= names.len(),
        0 < next0,
        next0 + names.len() <= i64::MAX,
        forall|a: int, b: int|
            0 <= a < b < tags0.len() ==> (#[trigger] tags0[a]).id != (#[trigger] tags0[b]).id,
        forall|a: int, b: int|
            0 <= a < b < tags0.len() ==> fold((#[trigger] tags0[a]).name) != fold(
                (#[trigger] tags0[b]).name,
            ),
        forall|a: int| 0 <= a < tags0.len() ==> 0 < (#[trigger] tags0[a]).id < next0,
    ensures
        ({
            let r = apply_tag_names(tags0, next0, Seq::empty(), nid, names, i);
            &&& tags0.len() <= r.0.len()
            &&& forall|x: int| 0 <= x < tags0.len() ==> #[trigger] r.0[x] == tags0[x]
            &&& next0 <= r.1 <= next0 + i
            &&& r.1 - next0 == r.0.len() - tags0.len()
            &&& forall|a: int, b: int|
                0 <= a < b < r.0.len() ==> (#[trigger] r.0[a]).id != (#[trigger] r.0[b]).id
            &&& forall|a: int, b: int|
                0 <= a < b < r.0.len() ==> fold((#[trigger] r.0[a]).name) != fold(
                    (#[trigger] r.0[b]).name,
                )
            &&& forall|a: int| 0 <= a < r.0.len() ==> 0 < (#[trigger] r.0[a]).id < r.1
            &&& forall|x: int| 0 <= x < r.2.len() ==> (#[trigger] r.2[x]).0 == nid
            &&& forall|x: int|
                0 <= x < r.2.len() ==> (#[trigger] r.2[x]).1 < r.1 && exists|w: int|
                    0 <= w < r.0.len() && (#[trigger] r.0[w]).id == r.2[x].1
            &&& forall|a: int, b: int|
                0 <= a < b < r.2.len() ==> #[trigger] r.2[a] != #[trigger] r.2[b]
        }),
    decreases i,
{
    if i > 0 {
        lemma_apply_props(tags0, next0, nid, names, i - 1);
        let prev = apply_tag_names(tags0, next0, Seq::empty(), nid, names, i - 1);
        let r = apply_tag_names(tags0, next0, Seq::empty(), nid, names, i);
        let name = names[i - 1];
        let k = tag_idx_ci(prev.0, name);
        lemma_first_where_props(prev.0, |t: TagR| fold(t.name) == fold(name));
        if k >= 0 {
            let tid = prev.0[k].id;
            if !pair_in(prev.2, (nid, tid)) {
                assert(r.2 == prev.2.push((nid, tid)));
                assert forall|a: int, b: int| 0 <= a < b < r.2.len() implies #[trigger] r.2[a]
                    != #[trigger] r.2[b] by {
                    if b == r.2.len() - 1 {
                        assert(r.2[a] == prev.2[a]);
                        if prev.2[a] == (nid, tid) {
                            assert(pair_in(prev.2, (nid, tid)));
                        }
                    } else {
                        assert(r.2[a] == prev.2[a] && r.2[b] == prev.2[b]);
                    }
                }
                assert forall|x: int| 0 <= x < r.2.len() implies (#[trigger] r.2[x]).1 < r.1
                    && exists|w: int| 0 <= w < r.0.len() && (#[trigger] r.0[w]).id
                    == r.2[x].1 by {
                    if x < prev.2.len() {
                        assert(r.2[x] == prev.2[x]);
                        let w = choose|w: int|
                            0 <= w < prev.0.len() && (#[trigger] prev.0[w]).id == prev.2[x].1;
                        assert(r.0[w].id == r.2[x].1);
                    } else {
                        assert(r.2[x] == (nid, tid));
                        assert(r.0[k].id == tid);
                    }
                }
            }
        } else {
            let tid = prev.1 as i64;
            assert(r.0 == prev.0.push(TagR { id: tid, name: name }));
            assert(r.2 == prev.2.push((nid, tid)));
            assert(forall|x: int| 0 <= x < prev.0.len() ==> #[trigger] r.0[x] == prev.0[x]);
            assert(r.0[prev.0.len() as int] == TagR { id: tid, name: name });
            assert(forall|a: int| 0 <= a < prev.0.len() ==> !(fold(
                (#[trigger] prev.0[a]).name,
            ) == fold(name)));
            assert forall|x: int| 0 <= x < r.2.len() implies (#[trigger] r.2[x]).1 < r.1
                && exists|w: int| 0 <= w < r.0.len() && (#[trigger] r.0[w]).id == r.2[x].1 by {
                if x < prev.2.len() {
                    assert(r.2[x] == prev.2[x]);
                    let w = choose|w: int|
                        0 <= w < prev.0.len() && (#[trigger] prev.0[w]).id == prev.2[x].1;
                    assert(r.0[w].id == r.2[x].1);
                } else {
                    assert(r.2[x] == (nid, tid));
                    assert(r.0[prev.0.len() as int].id == tid);
                }
            }
            assert forall|a: int, b: int| 0 <= a < b < r.2.len() implies #[trigger] r.2[a]
                != #[trigger] r.2[b] by {
                if b == r.2.len() - 1 {
                    assert(r.2[a] == prev.2[a]);
                    assert(prev.2[a].1 < prev.1);
                } else {
                    assert(r.2[a] == prev.2[a] && r.2[b] == prev.2[b]);
                }
            }
        }
    }
}

/// Replacing a note's tag associations preserves well-formedness.
proof fn lemma_wf_after_set_tags(m: StoreModel, nid: i64, names: Seq<Seq<char>>)
    requires
        wf(m),
        note_id_of(m, nid),
        m.next_tag_id + names.len() <= i64::MAX,
    ensures
        wf(set_note_tags_model(m, nid, names)),
{
    let m2 = set_note_tags_model(m, nid, names);
    let kept = note_tags_surviving(m.note_tags, nid, 0);
    let a = apply_tag_names(m.tags, m.next_tag_id as int, Seq::empty(), nid, names,
        names.len() as int);
    lemma_apply_props(m.tags, m.next_tag_id as int, nid, names, names.len() as int);
    crate::notes::lemma_note_tags_surviving_props(m.note_tags, nid, 0);
    assert(m2.note_tags == kept + a.2);
    assert(m2.tags == a.0);
    assert forall|x: int| 0 <= x < kept.len() implies note_id_of(m2, (#[trigger] kept[x]).0)
        && tag_id_of(m2, kept[x].1) && kept[x].0 != nid by {
        let j = choose|j: int|
            0 <= j < m.note_tags.len() && #[trigger] kept[x] == m.note_tags[j]
                && m.note_tags[j].0 != nid;
        assert(note_id_of(m, m.note_tags[j].0));
        let wn = choose|w: int| 0 <= w < m.notes.len() && (#[trigger] m.notes[w]).id
            == m.note_tags[j].0;
        assert(m2.notes[wn].id == kept[x].0);
        assert(tag_id_of(m, m.note_tags[j].1));
        let wt = choose|w: int| 0 <= w < m.tags.len() && (#[trigger] m.tags[w]).id
            == m.note_tags[j].1;
        assert(m2.tags[wt].id == kept[x].1);
    }
    assert forall|x: int| 0 <= x < a.2.len() implies note_id_of(m2, (#[trigger] a.2[x]).0)
        && tag_id_of(m2, a.2[x].1) by {
        assert(a.2[x].0 == nid);
        let wn = choose|w: int| 0 <= w < m.notes.len() && (#[trigger] m.notes[w]).id == nid;
        assert(m2.notes[wn].id == nid);
        let w = choose|w: int| 0 <= w < a.0.len() && (#[trigger] a.0[w]).id == a.2[x].1;
        assert(m2.tags[w].id == a.2[x].1);
    }
    assert forall|x: int, y: int| 0 <= x < y < m2.note_tags.len() implies #[trigger] m2
        .note_tags[x] != #[trigger] m2.note_tags[y] by {
        if y < kept.len() {
            assert(m2.note_tags[x] == kept[x] && m2.note_tags[y] == kept[y]);
        } else if x >= kept.len() {
            assert(m2.note_tags[x] == a.2[x - kept.len()] && m2.note_tags[y] == a.2[y
                - kept.len()]);
        } else {
            assert(m2.note_tags[x] == kept[x] && m2.note_tags[y] == a.2[y - kept.len()]);
            assert(kept[x].0 != nid && a.2[y - kept.len()].0 == nid);
        }
    }
    assert forall|i: int| 0 <= i < m2.note_tags.len() implies note_id_of(
        m2,
        (#[trigger] m2.note_tags[i]).0,
    ) && tag_id_of(m2, m2.note_tags[i].1) by {
        if i < kept.len() {
            assert(m2.note_tags[i] == kept[i]);
        } else {
            assert(m2.note_tags[i] == a.2[i - kept.len()]);
        }
    }
    assert forall|i: int| 0 <= i < m2.links.len() implies note_id_of(
        m2,
        (#[trigger] m2.links[i]).source_id,
    ) && match m2.links[i].target_id {
        Some(t) => note_id_of(m2, t),
        None => true,
    } by {
        assert(note_id_of(m, m.links[i].source_id));
        let w = choose|w: int| 0 <= w < m.notes.len() && (#[trigger] m.notes[w]).id
            == m.links[i].source_id;
        assert(m2.notes[w].id == m.links[i].source_id);
        match m.links[i].target_id {
            Some(t) => {
                assert(note_id_of(m, t));
                let w2 = choose|w2: int| 0 <= w2 < m.notes.len() && (#[trigger] m.notes[w2]).id
                    == t;
                assert(m2.notes[w2].id == t);
            },
            None => {},
        }
    }
}

// ---------------------------------------------------------------------
// Operations
// ---------------------------------------------------------------------

impl Store {
    /// The identifier of the tag with this name, created if absent;
    /// names differing only in ASCII case are one tag, and the
    /// first-seen casing stays canonical.
    pub fn get_or_create_tag(&mut self, name: &str) -> (r: Result<i64, StoreError>)
        requires
            wf(old(self)@),
        ensures
            wf(final(self)@),
            ({
                let m = old(self)@;
                let k = tag_idx_ci(m.tags, name@);
                match r {
                    Ok(id) => if k >= 0 {
                        id == m.tags[k].id && final(self)@ == m
                    } else {
                        id == m.next_tag_id && final(self)@ == StoreModel {
                            tags: m.tags.push(TagR { id: m.next_tag_id, name: name@ }),
                            next_tag_id: (m.next_tag_id + 1) as i64,
                            ..m
                        }
                    },
                    Err(e) => e is IdsExhausted && k < 0 && m.next_tag_id == i64::MAX
                        && final(self)@ == m,
                }
            }),
    {
        let ghost m = self@;
        proof {
            lemma_first_where_props(m.tags, |t: TagR| fold(t.name) == fold(name@));
        }
        let nc = chars_of(name);
        let fnc = fold_chars(&nc);
        let k = find_tag_ci(&self.tags, &fnc, Ghost(name@));
        if k < self.tags.len() {
            return Ok(self.tags[k].id);
        }
        if self.next_tag_id == i64::MAX {
            return Err(StoreError::IdsExhausted);
        }
        let id = self.next_tag_id;
        let row = TagRow { id: id, name: String::from_str(name) };
        let ghost rv = row@;
        self.tags.push(row);
        self.next_tag_id = id + 1;
        proof {
            assert(rv == TagR { id: m.next_tag_id, name: name@ });
            assert(self@.tags =~= m.tags.push(rv));
            assert(self@ =~= StoreModel {
                tags: m.tags.push(rv),
                next_tag_id: (m.next_tag_id + 1) as i64,
                ..m
            });
            lemma_wf_after_tag_insert(m, self@, rv);
        }
        Ok(id)
    }

    /// Replace note `note_id`'s tag associations by the given names:
    /// each name finds or creates its tag, and each tag is associated
    /// once. Fails when the note does not exist or tag identifiers
    /// would run out, leaving the store unchanged.
    pub fn set_note_tags(&mut self, note_id: i64, tags: &Vec<String>) -> (r: Result<
        (),
        StoreError,
    >)
        requires
            wf(old(self)@),
        ensures
            wf(final(self)@),
            ({
                let m = old(self)@;
                let names = tags@.map_values(|s: String| s@);
                match r {
                    Ok(_) => note_id_of(m, note_id) && names.len() <= i64::MAX - m.next_tag_id
                        && final(self)@ == set_note_tags_model(m, note_id, names),
                    Err(e) => final(self)@ == m && ((e is MissingRow && !note_id_of(m, note_id))
                        || (e is IdsExhausted && note_id_of(m, note_id) && names.len()
                        > i64::MAX - m.next_tag_id)),
                }
            }),
    {
        let ghost m = self@;
        let ghost names = tags@.map_values(|s: String| s@);
        proof {
            lemma_first_where_props(m.notes, |n: NoteR| n.id == note_id);
        }
        let sj = find_note_by_id(&self.notes, note_id);
        if sj >= self.notes.len() {
            proof {
                assert(!note_id_of(m, note_id));
            }
            return Err(StoreError::MissingRow);
        }
        proof {
            assert(note_id_of(m, note_id));
        }
        let room = i64::MAX - self.next_tag_id;
        if tags.len() as u64 > room as u64 {
            return Err(StoreError::IdsExhausted);
        }
        // drop the note's existing associations
        let nt = self.note_tags.len();
        let mut new_nts: Vec<NoteTagRow> = Vec::new();
        let mut ti: usize = 0;
        let ghost nts0 = m.note_tags;
        while ti < nt
            invariant
                0 <= ti <= nt,
                nt == self.note_tags@.len(),
                self@.note_tags == nts0,
                nts0.len() == nt as int,
                new_nts@.map_values(|x: NoteTagRow| (x.note_id, x.tag_id)) + note_tags_surviving(
                    nts0,
                    note_id,
                    ti as int,
                ) =~= note_tags_surviving(nts0, note_id, 0),
            decreases nt - ti,
        {
            let ghost pre = new_nts@.map_values(|x: NoteTagRow| (x.note_id, x.tag_id));
            proof {
                assert(nts0[ti as int] == (self.note_tags@[ti as int].note_id,
                self.note_tags@[ti as int].tag_id));
            }
            if self.note_tags[ti].note_id != note_id {
                let x = &self.note_tags[ti];
                new_nts.push(NoteTagRow { note_id: x.note_id, tag_id: x.tag_id });
                proof {
                    assert(new_nts@.map_values(|x: NoteTagRow| (x.note_id, x.tag_id)) =~= pre
                        + seq![nts0[ti as int]]);
                    assert(note_tags_surviving(nts0, note_id, ti as int) == seq![
                        nts0[ti as int],
                    ] + note_tags_surviving(nts0, note_id, ti + 1));
                }
            } else {
                proof {
                    assert(note_tags_surviving(nts0, note_id, ti as int) == note_tags_surviving(
                        nts0,
                        note_id,
                        ti + 1,
                    ));
                }
            }
            ti = ti + 1;
        }
        self.note_tags = new_nts;
        let ghost kept = note_tags_surviving(m.note_tags, note_id, 0);
        let kept_len = self.note_tags.len();
        let ghost base = m.next_tag_id as int;
        proof {
            assert(self@.note_tags =~= kept);
            assert(kept.len() == kept_len as int);
        }
        // find or create each tag; associate each once
        let n_in = tags.len();
        let mut i: usize = 0;
        while i < n_in
            invariant
                0 <= i <= n_in,
                n_in == tags@.len(),
                names == tags@.map_values(|s: String| s@),
                names.len() == n_in as int,
                wf(m),
                self@.notes == m.notes,
                self@.links == m.links,
                self@.fts == m.fts,
                self@.next_note_id == m.next_note_id,
                self@.next_link_id == m.next_link_id,
                kept == note_tags_surviving(m.note_tags, note_id, 0),
                kept.len() == kept_len as int,
                base == m.next_tag_id as int,
                base + names.len() <= i64::MAX,
                ({
                    let a = apply_tag_names(m.tags, base, Seq::empty(), note_id, names,
                        i as int);
                    &&& self@.tags == a.0
                    &&& self@.next_tag_id as int == a.1
                    &&& a.1 <= base + i
                    &&& self@.note_tags =~= kept + a.2
                }),
            decreases n_in - i,
        {
            let ghost a_pre = apply_tag_names(m.tags, base, Seq::empty(), note_id, names,
                i as int);
            proof {
                assert(names[i as int] == tags@[i as int]@);
            }
            let nc = chars_of(tags[i].as_str());
            let fnc = fold_chars(&nc);
            let k = find_tag_ci(&self.tags, &fnc, Ghost(names[i as int]));
            let tid: i64;
            if k < self.tags.len() {
                tid = self.tags[k].id;
                proof {
                    assert(tag_idx_ci(a_pre.0, names[i as int]) == k as int);
                    assert(a_pre.0[k as int].id == tid);
                }
                // associate unless this tag is already associated
                let mut present = false;
                let mut j: usize = kept_len;
                let nn = self.note_tags.len();
                proof {
                    assert(self@.note_tags.len() == kept.len() + a_pre.2.len());
                    assert(kept_len <= nn);
                }
                while j < nn && !present
                    invariant
                        kept_len <= j <= nn,
                        nn == self.note_tags@.len(),
                        kept.len() == kept_len as int,
                        self@.note_tags =~= kept + a_pre.2,
                        self@.note_tags.len() == nn as int,
                        present ==> pair_in(a_pre.2, (note_id, tid)),
                        !present ==> forall|x: int|
                            0 <= x < j - kept_len ==> #[trigger] a_pre.2[x] != (note_id, tid),
                    decreases nn - j, (if present { 0int } else { 1int }),
                {
                    proof {
                        assert(self@.note_tags[j as int] == a_pre.2[j - kept_len]);
                        assert(self@.note_tags[j as int] == (self.note_tags@[j as int].note_id,
                        self.note_tags@[j as int].tag_id));
                    }
                    if self.note_tags[j].note_id == note_id && self.note_tags[j].tag_id == tid {
                        present = true;
                        proof {
                            assert(a_pre.2[j - kept_len] == (note_id, tid));
                        }
                    } else {
                        j = j + 1;
                    }
                }
                if !present {
                    proof {
                        assert(forall|x: int|
                            0 <= x < a_pre.2.len() ==> #[trigger] a_pre.2[x] != (note_id, tid));
                        assert(!pair_in(a_pre.2, (note_id, tid)));
                    }
                    let ghost nt_pre = self@.note_tags;
                    self.note_tags.push(NoteTagRow { note_id: note_id, tag_id: tid });
                    proof {
                        assert(apply_tag_names(m.tags, base, Seq::empty(), note_id, names, i
                            + 1).2 =~= a_pre.2.push((note_id, tid)));
                        assert(self@.note_tags =~= nt_pre.push((note_id, tid)));
                        assert(nt_pre.push((note_id, tid)) =~= kept + a_pre.2.push(
                            (note_id, tid),
                        ));
                        assert(self@.note_tags =~= kept + a_pre.2.push((note_id, tid)));
                    }
                } else {
                    proof {
                        assert(apply_tag_names(m.tags, base, Seq::empty(), note_id, names, i
                            + 1) == a_pre);
                    }
                }
            } else {
                proof {
                    lemma_first_where_props(
                        a_pre.0,
                        |t: TagR| fold(t.name) == fold(names[i as int]),
                    );
                    assert(tag_idx_ci(a_pre.0, names[i as int]) == -1);
                    lemma_apply_props(m.tags, base, note_id, names, i as int);
                }
                tid = self.next_tag_id;
                let row = TagRow { id: tid, name: String::from_str(tags[i].as_str()) };
                let ghost rv = row@;
                let ghost nt_pre = self@.note_tags;
                self.tags.push(row);
                self.next_tag_id = tid + 1;
                self.note_tags.push(NoteTagRow { note_id: note_id, tag_id: tid });
                proof {
                    assert(rv == TagR { id: a_pre.1 as i64, name: names[i as int] });
                    assert(self@.tags =~= a_pre.0.push(rv));
                    assert(self@.note_tags =~= nt_pre.push((note_id, a_pre.1 as i64)));
                    assert(nt_pre.push((note_id, a_pre.1 as i64)) =~= kept + a_pre.2.push(
                        (note_id, a_pre.1 as i64),
                    ));
                    assert(self@.note_tags =~= kept + a_pre.2.push((note_id, a_pre.1 as i64)));
                }
            }
            i = i + 1;
        }
        proof {
            assert(apply_tag_names(m.tags, base, Seq::empty(), note_id, names, names.len() as int)
                == apply_tag_names(m.tags, base, Seq::empty(), note_id, names, i as int));
            assert(self@ =~= set_note_tags_model(m, note_id, names));
            lemma_wf_after_set_tags(m, note_id, names);
        }
        Ok(())
    }

    /// The tag names of a note, ordered case-insensitively.
    pub fn get_note_tags(&self, note_id: i64) -> (r: Vec<String>)
        ensures
            r@.map_values(|s: String| s@).to_multiset() == note_tag_names(
                self@,
                note_id,
                0,
            ).to_multiset(),
            sorted_rows(r@),
    {
        let ghost m = self@;
        let nn = self.note_tags.len();
        let mut names: Vec<String> = Vec::new();
        let mut j: usize = 0;
        while j < nn
            invariant
                0 <= j <= nn,
                nn == self.note_tags@.len(),
                self@ == m,
                m.note_tags.len() == nn as int,
                names@.map_values(|s: String| s@) + note_tag_names(m, note_id, j as int)
                    =~= note_tag_names(m, note_id, 0),
            decreases nn - j,
        {
            let ghost pre = names@.map_values(|s: String| s@);
            proof {
                assert(m.note_tags[j as int] == (self.note_tags@[j as int].note_id,
                self.note_tags@[j as int].tag_id));
            }
            if self.note_tags[j].note_id == note_id {
                let tid = self.note_tags[j].tag_id;
                let k = find_tag_by_id(&self.tags, tid);
                let name: String;
                if k < self.tags.len() {
                    proof {
                        assert(m.tags[k as int] == self.tags@[k as int]@);
                        assert(tag_idx_by_id(m.tags, tid) == k as int);
                    }
                    name = String::from_str(self.tags[k].name.as_str());
                    proof {
                        assert(name@ == tag_name_of(m.tags, tid));
                    }
                } else {
                    proof {
                        lemma_first_where_props(m.tags, |t: TagR| t.id == tid);
                        assert(tag_idx_by_id(m.tags, tid) == -1);
                    }
                    name = String::new();
                    proof {
                        assert(name@ =~= tag_name_of(m.tags, tid));
                    }
                }
                names.push(name);
                proof {
                    assert(names@.map_values(|s: String| s@) =~= pre + seq![
                        tag_name_of(m.tags, tid),
                    ]);
                    assert(note_tag_names(m, note_id, j as int) == seq![
                        tag_name_of(m.tags, tid),
                    ] + note_tag_names(m, note_id, j + 1));
                }
            } else {
                proof {
                    assert(note_tag_names(m, note_id, j as int) == note_tag_names(
                        m,
                        note_id,
                        j + 1,
                    ));
                }
            }
            j = j + 1;
        }
        proof {
            assert(note_tag_names(m, note_id, j as int) =~= Seq::<Seq<char>>::empty());
            assert(names@.map_values(|s: String| s@) =~= note_tag_names(m, note_id, 0));
        }
        let ghost names_v = names@;
        let r = sort_rows(names);
        proof {
            crate::store::lemma_multiset_map(names_v, r@, |s: String| s@);
        }
        r
    }

    /// All tags carried by at least one note, with how many notes carry
    /// each, ordered case-insensitively by name.
    pub fn list_tags(&self) -> (r: Vec<TagInfo>)
        ensures
            r@.map_values(|t: TagInfo| t@).to_multiset() == tag_infos(self@, 0).to_multiset(),
            sorted_rows(r@),
    {
        let ghost m = self@;
        let ntags = self.tags.len();
        let mut infos: Vec<TagInfo> = Vec::new();
        let mut ti: usize = 0;
        while ti < ntags
            invariant
                0 <= ti <= ntags,
                ntags == self.tags@.len(),
                self@ == m,
                m.tags.len() == ntags as int,
                infos@.map_values(|t: TagInfo| t@) + tag_infos(m, ti as int) =~= tag_infos(m, 0),
            decreases ntags - ti,
        {
            let ghost pre = infos@.map_values(|t: TagInfo| t@);
            proof {
                assert(m.tags[ti as int] == self.tags@[ti as int]@);
            }
            let tid = self.tags[ti].id;
            // count the notes carrying this tag
            let nn = self.note_tags.len();
            let mut cnt: i32 = 0;
            let mut j: usize = 0;
            proof {
                assert(m.note_tags.len() == nn as int);
            }
            let ghost total = count_assocs(m.note_tags, tid, 0);
            let mut gcnt: u64 = 0;
            while j < nn
                invariant
                    0 <= j <= nn,
                    nn == self.note_tags@.len(),
                    self@ == m,
                    m.note_tags.len() == nn as int,
                    total == count_assocs(m.note_tags, tid, 0),
                    gcnt as int + count_assocs(m.note_tags, tid, j as int) == total,
                    gcnt <= j,
                    cnt as int == clip_count(gcnt as int) as int,
                decreases nn - j,
            {
                proof {
                    assert(m.note_tags[j as int] == (self.note_tags@[j as int].note_id,
                    self.note_tags@[j as int].tag_id));
                }
                if self.note_tags[j].tag_id == tid {
                    gcnt = gcnt + 1;
                    if cnt < i32::MAX {
                        cnt = cnt + 1;
                    }
                }
                j = j + 1;
            }
            proof {
                assert(count_assocs(m.note_tags, tid, j as int) == 0);
                assert(gcnt as int == total);
            }
            if cnt > 0 {
                let info = TagInfo {
                    id: tid,
                    name: String::from_str(self.tags[ti].name.as_str()),
                    count: cnt,
                };
                infos.push(info);
                proof {
                    assert(infos@.map_values(|t: TagInfo| t@) =~= pre + seq![
                        TagInfoR {
                            id: m.tags[ti as int].id,
                            name: m.tags[ti as int].name,
                            count: clip_count(count_assocs(m.note_tags, m.tags[ti as int].id, 0)),
                        },
                    ]);
                    assert(tag_infos(m, ti as int) == seq![
                        TagInfoR {
                            id: m.tags[ti as int].id,
                            name: m.tags[ti as int].name,
                            count: clip_count(count_assocs(m.note_tags, m.tags[ti as int].id, 0)),
                        },
                    ] + tag_infos(m, ti + 1));
                }
            } else {
                proof {
                    assert(count_assocs(m.note_tags, tid, 0) <= 0);
                    assert(tag_infos(m, ti as int) == tag_infos(m, ti + 1));
                }
            }
            ti = ti + 1;
        }
        proof {
            assert(tag_infos(m, ti as int) =~= Seq::<TagInfoR>::empty());
            assert(infos@.map_values(|t: TagInfo| t@) =~= tag_infos(m, 0));
        }
        let ghost infos_v = infos@;
        let r = sort_rows(infos);
        proof {
            crate::store::lemma_multiset_map(infos_v, r@, |t: TagInfo| t@);
        }
        r
    }

    /// Assemble the full note at a path from its stored metadata, its
    /// sorted tag names, and its text (which the caller read from
    /// disk). An unindexed path is a `NoteNotFound` condition, distinct
    /// from any I/O or storage failure.
    pub fn get_note(&self, path: &str, content: &str) -> (r: Result<
        crate::models::Note,
        crate::error::ChronicleError,
    >)
        ensures
            ({
                let k = crate::store::note_idx_by_path(self@.notes, path@);
                match r {
                    Ok(note) => {
                        &&& k >= 0
                        &&& note.path@ == self@.notes[k].path
                        &&& note.title@ == self@.notes[k].title
                        &&& note.content@ == content@
                        &&& note.word_count == self@.notes[k].word_count
                        &&& crate::text::view_opt_string(note.created_at) == self@.notes[k]
                            .created_at
                        &&& crate::text::view_opt_string(note.modified_at) == self@.notes[k]
                            .modified_at
                        &&& note.tags@.map_values(|s: String| s@).to_multiset()
                            == note_tag_names(self@, self@.notes[k].id, 0).to_multiset()
                        &&& sorted_rows(note.tags@)
                    },
                    Err(e) => k == -1 && (match e {
                        crate::error::ChronicleError::NoteNotFound(p) => p@ == path@,
                        _ => false,
                    }),
                }
            }),
    {
        let meta = match self.get_note_by_path(path) {
            Some(meta) => meta,
            None => {
                return Err(
                    crate::error::ChronicleError::NoteNotFound(String::from_str(path)),
                );
            },
        };
        let tags = self.get_note_tags(meta.id);
        Ok(
            crate::models::Note {
                path: meta.path,
                title: meta.title,
                content: String::from_str(content),
                word_count: meta.word_count,
                created_at: meta.created_at,
                modified_at: meta.modified_at,
                tags,
            },
        )
    }

    /// The identifiers of the notes carrying the tag with this name
    /// (case-insensitively), in association order; empty when no such
    /// tag exists.
    pub fn get_notes_by_tag(&self, name: &str) -> (r: Vec<i64>)
        ensures
            ({
                let k = tag_idx_ci(self@.tags, name@);
                if k >= 0 {
                    r@ == notes_with_tag(self@.note_tags, self@.tags[k].id, 0)
                } else {
                    r@ == Seq::<i64>::empty()
                }
            }),
    {
        let ghost m = self@;
        proof {
            lemma_first_where_props(m.tags, |t: TagR| fold(t.name) == fold(name@));
        }
        let nc = chars_of(name);
        let fnc = fold_chars(&nc);
        let k = find_tag_ci(&self.tags, &fnc, Ghost(name@));
        if k >= self.tags.len() {
            let r: Vec<i64> = Vec::new();
            proof {
                assert(r@ =~= Seq::<i64>::empty());
            }
            return r;
        }
        let tid = self.tags[k].id;
        let nn = self.note_tags.len();
        let mut r: Vec<i64> = Vec::new();
        let mut j: usize = 0;
        while j < nn
            invariant
                0 <= j <= nn,
                nn == self.note_tags@.len(),
                self@ == m,
                m.note_tags.len() == nn as int,
                r@ + notes_with_tag(m.note_tags, tid, j as int) =~= notes_with_tag(
                    m.note_tags,
                    tid,
                    0,
                ),
            decreases nn - j,
        {
            let ghost pre = r@;
            proof {
                assert(m.note_tags[j as int] == (self.note_tags@[j as int].note_id,
                self.note_tags@[j as int].tag_id));
            }
            if self.note_tags[j].tag_id == tid {
                r.push(self.note_tags[j].note_id);
                proof {
                    assert(r@ =~= pre + seq![m.note_tags[j as int].0]);
                    assert(notes_with_tag(m.note_tags, tid, j as int) == seq![
                        m.note_tags[j as int].0,
                    ] + notes_with_tag(m.note_tags, tid, j + 1));
                }
            } else {
                proof {
                    assert(notes_with_tag(m.note_tags, tid, j as int) == notes_with_tag(
                        m.note_tags,
                        tid,
                        j + 1,
                    ));
                }
            }
            j = j + 1;
        }
        proof {
            assert(notes_with_tag(m.note_tags, tid, j as int) =~= Seq::<i64>::empty());
            assert(r@ =~= notes_with_tag(m.note_tags, tid, 0));
        }
        r
    }
}

} // verus!
