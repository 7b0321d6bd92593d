//! Note rows: upsert, lookup, listing, rename, and deletion with its
//! cascades (owned links and tag associations go, resolved-target
//! references pointing at the deleted note are cleared).

use vstd::prelude::*;
use crate::store::{
    Store, StoreModel, StoreError, NoteRow, NoteR, LinkR, wf, note_idx_by_path, note_idx_by_id,
    lemma_first_at_char, lemma_first_where_props, note_id_of, tag_id_of,
    SortOrd, sort_rows, sorted_rows,
};
use crate::text::{
    lex_lt, lex_lt_exec, lemma_lex_asym, lemma_lex_irrefl, str_eq, opt_str_owned, view_opt_str,
    view_opt_string, chars_of,
};

verus! {

/// Note metadata handed to callers: the note row without its
/// fingerprint.
pub struct NoteMeta {
    pub id: i64,
    pub path: String,
    pub title: String,
    pub created_at: Option<String>,
    pub modified_at: Option<String>,
    pub word_count: i32,
}

#[verifier::ext_equal]
pub struct NoteMetaR {
    pub id: i64,
    pub path: Seq<char>,
    pub title: Seq<char>,
    pub created_at: Option<Seq<char>>,
    pub modified_at: Option<Seq<char>>,
    pub word_count: i32,
}

impl View for NoteMeta {
    type V = NoteMetaR;

    open spec fn view(&self) -> NoteMetaR {
        NoteMetaR {
            id: self.id,
            path: self.path@,
            title: self.title@,
            created_at: view_opt_string(self.created_at),
            modified_at: view_opt_string(self.modified_at),
            word_count: self.word_count,
        }
    }
}

/// The metadata of a note row.
pub open spec fn meta_of(n: NoteR) -> NoteMetaR {
    NoteMetaR {
        id: n.id,
        path: n.path,
        title: n.title,
        created_at: n.created_at,
        modified_at: n.modified_at,
        word_count: n.word_count,
    }
}

/// Listing order: most recently modified first, rows without a
/// modification time last, ties by ascending identifier.
pub open spec fn meta_before(a: NoteMetaR, b: NoteMetaR) -> bool {
    match (a.modified_at, b.modified_at) {
        (Some(x), Some(y)) => lex_lt(y, x) || (x == y && a.id < b.id),
        (Some(x), None) => true,
        (None, Some(y)) => false,
        (None, None) => a.id < b.id,
    }
}

impl SortOrd for NoteMeta {
    open spec fn before(self, other: Self) -> bool {
        meta_before(self@, other@)
    }

    proof fn lemma_asym(a: Self, b: Self) {
        match (a@.modified_at, b@.modified_at) {
            (Some(x), Some(y)) => {
                lemma_lex_asym(x, y);
                lemma_lex_irrefl(x);
                lemma_lex_irrefl(y);
            },
            _ => {},
        }
    }

    fn lt(&self, other: &Self) -> (r: bool) {
        match (&self.modified_at, &other.modified_at) {
            (Some(x), Some(y)) => {
                let xc = chars_of(x.as_str());
                let yc = chars_of(y.as_str());
                if lex_lt_exec(&yc, &xc) {
                    true
                } else if str_eq(x.as_str(), y.as_str()) {
                    self.id < other.id
                } else {
                    false
                }
            },
            (Some(_), None) => true,
            (None, Some(_)) => false,
            (None, None) => self.id < other.id,
        }
    }
}

/// A link row after the note `id` is deleted: untouched unless it
/// resolved to that note, in which case the resolution is cleared.
pub open spec fn cleared(l: LinkR, id: i64) -> LinkR {
    LinkR {
        target_id: if l.target_id == Some(id) {
            None
        } else {
            l.target_id
        },
        ..l
    }
}

/// The link rows surviving deletion of note `id`, from index `i` on:
/// links owned by the note are dropped, the rest are cleared.
pub open spec fn links_surviving(links: Seq<LinkR>, id: i64, i: int) -> Seq<LinkR>
    decreases links.len() - i,
{
    if i < 0 || i >= links.len() {
        Seq::empty()
    } else {
        let rest = links_surviving(links, id, i + 1);
        if links[i].source_id == id {
            rest
        } else {
            seq![cleared(links[i], id)] + rest
        }
    }
}

/// The note-tag associations surviving deletion of note `id`.
pub open spec fn note_tags_surviving(nts: Seq<(i64, i64)>, id: i64, i: int) -> Seq<(i64, i64)>
    decreases nts.len() - i,
{
    if i < 0 || i >= nts.len() {
        Seq::empty()
    } else {
        let rest = note_tags_surviving(nts, id, i + 1);
        if nts[i].0 == id {
            rest
        } else {
            seq![nts[i]] + rest
        }
    }
}

/// The store model after deleting the note at index `k` of the note
/// table.
pub open spec fn delete_note_model(m: StoreModel, k: int) -> StoreModel {
    let id = m.notes[k].id;
    StoreModel {
        notes: m.notes.remove(k),
        links: links_surviving(m.links, id, 0),
        note_tags: note_tags_surviving(m.note_tags, id, 0),
        ..m
    }
}

/// Every surviving link comes from a link of the input that the deleted
/// note did not own, and the survivors inherit the input's pairwise
/// distinctness of identifiers and of (source, target, line) triples.
pub(crate) proof fn lemma_links_surviving_props(links: Seq<LinkR>, id: i64, i: int)
    requires
        0 <= i <= links.len(),
        forall|a: int, b: int|
            0 <= a < b < links.len() ==> (#[trigger] links[a]).id != (#[trigger] links[b]).id,
        forall|a: int, b: int|
            0 <= a < b < links.len() ==> !((#[trigger] links[a]).source_id == (
            #[trigger] links[b]).source_id && links[a].target_path == links[b].target_path
                && links[a].line_number == links[b].line_number),
    ensures
        ({
            let r = links_surviving(links, id, i);
            &&& forall|x: int|
                0 <= x < r.len() ==> exists|j: int|
                    i <= j < links.len() && #[trigger] r[x] == cleared(links[j], id)
                        && links[j].source_id != id
            &&& forall|x: int, y: int|
                0 <= x < y < r.len() ==> (#[trigger] r[x]).id != (#[trigger] r[y]).id
            &&& forall|x: int, y: int|
                0 <= x < y < r.len() ==> !((#[trigger] r[x]).source_id == (
                #[trigger] r[y]).source_id && r[x].target_path == r[y].target_path
                    && r[x].line_number == r[y].line_number)
        }),
    decreases links.len() - i,
{
    if i < links.len() {
        lemma_links_surviving_props(links, id, i + 1);
        let r = links_surviving(links, id, i);
        let rest = links_surviving(links, id, i + 1);
        if links[i].source_id != id {
            let c = cleared(links[i], id);
            assert(r == seq![c] + rest);
            assert(r[0] == c);
            assert(forall|x: int| 1 <= x < r.len() ==> r[x] == rest[x - 1]);
            assert forall|x: int| 0 <= x < r.len() implies exists|j: int|
                i <= j < links.len() && #[trigger] r[x] == cleared(links[j], id)
                    && links[j].source_id != id by {
                if x == 0 {
                    assert(r[0] == cleared(links[i], id) && links[i].source_id != id);
                } else {
                    let j = choose|j: int|
                        i + 1 <= j < links.len() && rest[x - 1] == cleared(links[j], id)
                            && links[j].source_id != id;
                    assert(r[x] == cleared(links[j], id) && links[j].source_id != id);
                }
            }
            assert forall|x: int, y: int| 0 <= x < y < r.len() implies (#[trigger] r[x]).id != (
            #[trigger] r[y]).id && !(r[x].source_id == r[y].source_id && r[x].target_path
                == r[y].target_path && r[x].line_number == r[y].line_number) by {
                if x == 0 {
                    let j = choose|j: int|
                        i + 1 <= j < links.len() && rest[y - 1] == cleared(links[j], id)
                            && links[j].source_id != id;
                    assert(r[y] == cleared(links[j], id));
                    assert(links[i].id != links[j].id);
                } else {
                    assert(r[x] == rest[x - 1] && r[y] == rest[y - 1]);
                }
            }
        }
    }
}

/// The surviving associations come from associations of other notes and
/// stay pairwise distinct.
pub(crate) proof fn lemma_note_tags_surviving_props(nts: Seq<(i64, i64)>, id: i64, i: int)
    requires
        0 <= i <= nts.len(),
        forall|a: int, b: int| 0 <= a < b < nts.len() ==> #[trigger] nts[a] != #[trigger] nts[b],
    ensures
        ({
            let r = note_tags_surviving(nts, id, i);
            &&& forall|x: int|
                0 <= x < r.len() ==> exists|j: int|
                    i <= j < nts.len() && #[trigger] r[x] == nts[j] && nts[j].0 != id
            &&& forall|x: int, y: int| 0 <= x < y < r.len() ==> #[trigger] r[x] != #[trigger] r[y]
        }),
    decreases nts.len() - i,
{
    if i < nts.len() {
        lemma_note_tags_surviving_props(nts, id, i + 1);
        let r = note_tags_surviving(nts, id, i);
        let rest = note_tags_surviving(nts, id, i + 1);
        if nts[i].0 != id {
            assert(r == seq![nts[i]] + rest);
            assert(r[0] == nts[i]);
            assert(forall|x: int| 1 <= x < r.len() ==> r[x] == rest[x - 1]);
            assert forall|x: int| 0 <= x < r.len() implies exists|j: int|
                i <= j < nts.len() && #[trigger] r[x] == nts[j] && nts[j].0 != id by {
                if x == 0 {
                    assert(r[0] == nts[i] && nts[i].0 != id);
                } else {
                    let j = choose|j: int|
                        i + 1 <= j < nts.len() && rest[x - 1] == nts[j] && nts[j].0 != id;
                    assert(r[x] == nts[j] && nts[j].0 != id);
                }
            }
            assert forall|x: int, y: int| 0 <= x < y < r.len() implies #[trigger] r[x]
                != #[trigger] r[y] by {
                if x == 0 {
                    let j = choose|j: int|
                        i + 1 <= j < nts.len() && rest[y - 1] == nts[j] && nts[j].0 != id;
                    assert(r[y] == nts[j]);
                    if r[0] == r[y] {
                        assert(nts[i] == nts[j]);
                    }
                } else {
                    assert(r[x] == rest[x - 1] && r[y] == rest[y - 1]);
                }
            }
        }
    }
}

/// Find the index of the note with this path, or the table length.
pub(crate) fn find_note_by_path(notes: &Vec<NoteRow>, path: &str) -> (r: usize)
    ensures
        ({
            let nv = notes@.map_values(|n: NoteRow| n@);
            let k = note_idx_by_path(nv, path@);
            if k >= 0 {
                r as int == k
            } else {
                r as int == nv.len()
            }
        }),
{
    let ghost nv = notes@.map_values(|n: NoteRow| n@);
    let ghost p = |n: NoteR| n.path == path@;
    let n = notes.len();
    let mut j: usize = 0;
    while j < n && !str_eq(notes[j].path.as_str(), path)
        invariant
            0 <= j <= n,
            n == notes@.len(),
            nv == notes@.map_values(|n: NoteRow| n@),
            forall|k: int| 0 <= k < j ==> (#[trigger] nv[k]).path != path@,
        decreases n - j,
    {
        proof {
            assert(nv[j as int] == notes@[j as int]@);
        }
        j = j + 1;
    }
    proof {
        if j < n {
            assert(nv[j as int] == notes@[j as int]@);
        }
        assert(forall|k: int| 0 <= k < j ==> !p(nv[k]));
        lemma_first_at_char(nv, p, 0, j as int);
    }
    j
}

/// Find the index of the note with this identifier, or the table length.
pub(crate) fn find_note_by_id(notes: &Vec<NoteRow>, id: i64) -> (r: usize)
    ensures
        ({
            let nv = notes@.map_values(|n: NoteRow| n@);
            let k = note_idx_by_id(nv, id);
            if k >= 0 {
                r as int == k
            } else {
                r as int == nv.len()
            }
        }),
{
    let ghost nv = notes@.map_values(|n: NoteRow| n@);
    let ghost p = |n: NoteR| n.id == id;
    let n = notes.len();
    let mut j: usize = 0;
    while j < n && notes[j].id != id
        invariant
            0 <= j <= n,
            n == notes@.len(),
            nv == notes@.map_values(|n: NoteRow| n@),
            forall|k: int| 0 <= k < j ==> (#[trigger] nv[k]).id != id,
        decreases n - j,
    {
        proof {
            assert(nv[j as int] == notes@[j as int]@);
        }
        j = j + 1;
    }
    proof {
        if j < n {
            assert(nv[j as int] == notes@[j as int]@);
        }
        assert(forall|k: int| 0 <= k < j ==> !p(nv[k]));
        lemma_first_at_char(nv, p, 0, j as int);
    }
    j
}

fn meta_of_row(row: &NoteRow) -> (r: NoteMeta)
    ensures
        r@ == meta_of(row@),
{
    NoteMeta {
        id: row.id,
        path: String::from_str(row.path.as_str()),
        title: String::from_str(row.title.as_str()),
        created_at: match &row.created_at {
            Some(s) => Some(String::from_str(s.as_str())),
            None => None,
        },
        modified_at: match &row.modified_at {
            Some(s) => Some(String::from_str(s.as_str())),
            None => None,
        },
        word_count: row.word_count,
    }
}

impl Store {
    /// Insert a note row, or update the row with the same path in
    /// place. An update keeps the identifier, the path and the creation
    /// time and overwrites title, modification time, fingerprint and
    /// word count. Returns the row's identifier; fails only when a new
    /// row is needed and identifiers are exhausted.
    pub fn upsert_note(
        &mut self,
        path: &str,
        title: &str,
        created_at: Option<&str>,
        modified_at: Option<&str>,
        content_hash: &str,
        word_count: i32,
    ) -> (r: Result<i64, StoreError>)
        requires
            wf(old(self)@),
        ensures
            wf(final(self)@),
            ({
                let m = old(self)@;
                let k = note_idx_by_path(m.notes, path@);
                match r {
                    Ok(id) => if k >= 0 {
                        id == m.notes[k].id && final(self)@ == StoreModel {
                            notes: m.notes.update(
                                k,
                                NoteR {
                                    id: m.notes[k].id,
                                    path: m.notes[k].path,
                                    title: title@,
                                    created_at: m.notes[k].created_at,
                                    modified_at: view_opt_str(modified_at),
                                    content_hash: content_hash@,
                                    word_count: word_count,
                                },
                            ),
                            ..m
                        }
                    } else {
                        id == m.next_note_id && final(self)@ == StoreModel {
                            notes: m.notes.push(
                                NoteR {
                                    id: m.next_note_id,
                                    path: path@,
                                    title: title@,
                                    created_at: view_opt_str(created_at),
                                    modified_at: view_opt_str(modified_at),
                                    content_hash: content_hash@,
                                    word_count: word_count,
                                },
                            ),
                            next_note_id: (m.next_note_id + 1) as i64,
                            ..m
                        }
                    },
                    Err(e) => e is IdsExhausted && k < 0 && m.next_note_id == i64::MAX
                        && final(self)@ == m,
                }
            }),
    {
        let ghost m = self@;
        let ghost k = note_idx_by_path(m.notes, path@);
        proof {
            lemma_first_where_props(m.notes, |n: NoteR| n.path == path@);
        }
        let j = find_note_by_path(&self.notes, path);
        if j < self.notes.len() {
            let row = self.notes.remove(j);
            let rid = row.id;
            let new_row = NoteRow {
                id: row.id,
                path: row.path,
                title: String::from_str(title),
                created_at: row.created_at,
                modified_at: opt_str_owned(modified_at),
                content_hash: String::from_str(content_hash),
                word_count: word_count,
            };
            let ghost newr = new_row@;
            self.notes.insert(j, new_row);
            proof {
                assert(newr == NoteR {
                    id: m.notes[k].id,
                    path: m.notes[k].path,
                    title: title@,
                    created_at: m.notes[k].created_at,
                    modified_at: view_opt_str(modified_at),
                    content_hash: content_hash@,
                    word_count: word_count,
                });
                assert(self@.notes =~= m.notes.update(k, newr));
                assert(self@ =~= StoreModel { notes: m.notes.update(k, newr), ..m });
                lemma_wf_after_note_update(m, self@, k);
            }
            Ok(rid)
        } else {
            if self.next_note_id == i64::MAX {
                return Err(StoreError::IdsExhausted);
            }
            let id = self.next_note_id;
            let new_row = NoteRow {
                id: id,
                path: String::from_str(path),
                title: String::from_str(title),
                created_at: opt_str_owned(created_at),
                modified_at: opt_str_owned(modified_at),
                content_hash: String::from_str(content_hash),
                word_count: word_count,
            };
            let ghost newr = new_row@;
            self.notes.push(new_row);
            self.next_note_id = id + 1;
            proof {
                assert(self@.notes =~= m.notes.push(newr));
                assert(self@ =~= StoreModel {
                    notes: m.notes.push(newr),
                    next_note_id: (m.next_note_id + 1) as i64,
                    ..m
                });
                lemma_wf_after_note_insert(m, self@, newr);
            }
            Ok(id)
        }
    }

    /// The metadata of the note at this path, if one is indexed.
    pub fn get_note_by_path(&self, path: &str) -> (r: Option<NoteMeta>)
        ensures
            ({
                let k = note_idx_by_path(self@.notes, path@);
                match r {
                    Some(meta) => k >= 0 && meta@ == meta_of(self@.notes[k]),
                    None => k == -1,
                }
            }),
    {
        proof {
            lemma_first_where_props(self@.notes, |n: NoteR| n.path == path@);
        }
        let j = find_note_by_path(&self.notes, path);
        if j < self.notes.len() {
            Some(meta_of_row(&self.notes[j]))
        } else {
            None
        }
    }

    /// The metadata of the note with this identifier, if one is indexed.
    pub fn get_note_by_id(&self, id: i64) -> (r: Option<NoteMeta>)
        ensures
            ({
                let k = note_idx_by_id(self@.notes, id);
                match r {
                    Some(meta) => k >= 0 && meta@ == meta_of(self@.notes[k]),
                    None => k == -1,
                }
            }),
    {
        proof {
            lemma_first_where_props(self@.notes, |n: NoteR| n.id == id);
        }
        let j = find_note_by_id(&self.notes, id);
        if j < self.notes.len() {
            Some(meta_of_row(&self.notes[j]))
        } else {
            None
        }
    }

    /// All notes' metadata, most recently modified first, notes without
    /// a modification time last, ties by ascending identifier.
    pub fn list_notes(&self) -> (r: Vec<NoteMeta>)
        ensures
            r@.map_values(|x: NoteMeta| x@).to_multiset() == self@.notes.map_values(
                |n: NoteR| meta_of(n),
            ).to_multiset(),
            sorted_rows(r@),
    {
        let n = self.notes.len();
        let mut metas: Vec<NoteMeta> = Vec::new();
        let mut i: usize = 0;
        while i < n
            invariant
                0 <= i <= n,
                n == self.notes@.len(),
                self@.notes.len() == n as int,
                metas@.len() == i as int,
                metas@.map_values(|x: NoteMeta| x@) == self@.notes.subrange(0, i as int)
                    .map_values(|nr: NoteR| meta_of(nr)),
            decreases n - i,
        {
            proof {
                assert(self@.notes[i as int] == self.notes@[i as int]@);
            }
            let mm = meta_of_row(&self.notes[i]);
            proof {
                assert(mm@ == meta_of(self@.notes[i as int]));
            }
            let ghost pre = metas@;
            metas.push(mm);
            proof {
                let f = |x: NoteMeta| x@;
                let g = |nr: NoteR| meta_of(nr);
                let lhs = metas@.map_values(f);
                let rhs = self@.notes.subrange(0, i + 1).map_values(g);
                assert(lhs.len() == rhs.len());
                assert forall|j2: int| 0 <= j2 < lhs.len() implies lhs[j2] == rhs[j2] by {
                    if j2 < i {
                        assert(pre.map_values(f)[j2] == self@.notes.subrange(0, i as int)
                            .map_values(g)[j2]);
                        assert(metas@[j2] == pre[j2]);
                        assert(self@.notes.subrange(0, i as int)[j2] == self@.notes.subrange(
                            0,
                            i + 1,
                        )[j2]);
                    } else {
                        assert(metas@[j2] == mm);
                        assert(self@.notes.subrange(0, i + 1)[j2] == self@.notes[i as int]);
                    }
                }
                assert(lhs =~= rhs);
            }
            i = i + 1;
        }
        proof {
            assert(self@.notes.subrange(0, n as int) =~= self@.notes);
        }
        let ghost metas_v = metas@;
        let r = sort_rows(metas);
        proof {
            crate::store::lemma_multiset_map(metas_v, r@, |x: NoteMeta| x@);
        }
        r
    }

    /// Delete the note at this path; its links and tag associations go
    /// with it, and links of other notes that resolved to it lose their
    /// resolution. Returns whether a note was present: deleting an
    /// absent path is not an error.
    pub fn delete_note(&mut self, path: &str) -> (r: bool)
        requires
            wf(old(self)@),
        ensures
            wf(final(self)@),
            ({
                let m = old(self)@;
                let k = note_idx_by_path(m.notes, path@);
                if k >= 0 {
                    r == true && final(self)@ == delete_note_model(m, k)
                } else {
                    r == false && final(self)@ == m
                }
            }),
    {
        let ghost m = self@;
        let ghost k = note_idx_by_path(m.notes, path@);
        proof {
            lemma_first_where_props(m.notes, |n: NoteR| n.path == path@);
        }
        let j = find_note_by_path(&self.notes, path);
        if j >= self.notes.len() {
            return false;
        }
        let row = self.notes.remove(j);
        let id = row.id;
        let ghost gid = id;
        proof {
            assert(m.notes[k].id == gid);
        }
        // drop the note's own links; clear resolutions pointing at it
        let nl = self.links.len();
        let mut new_links: Vec<crate::store::Link> = Vec::new();
        let mut li: usize = 0;
        while li < nl
            invariant
                0 <= li <= nl,
                nl == self.links@.len(),
                self@.links == m.links,
                m.links.len() == nl as int,
                gid == id,
                new_links@.map_values(|l: crate::store::Link| l@) + links_surviving(
                    m.links,
                    gid,
                    li as int,
                ) =~= links_surviving(m.links, gid, 0),
            decreases nl - li,
        {
            let ghost pre = new_links@.map_values(|l: crate::store::Link| l@);
            proof {
                assert(m.links[li as int] == self.links@[li as int]@);
            }
            if self.links[li].source_id != id {
                let l = &self.links[li];
                let cleared_target = match l.target_id {
                    Some(t) => if t == id {
                        None
                    } else {
                        Some(t)
                    },
                    None => None,
                };
                let nrow = crate::store::Link {
                    id: l.id,
                    source_id: l.source_id,
                    target_path: String::from_str(l.target_path.as_str()),
                    target_id: cleared_target,
                    display_text: match &l.display_text {
                        Some(s) => Some(String::from_str(s.as_str())),
                        None => None,
                    },
                    line_number: l.line_number,
                };
                let ghost nrv = nrow@;
                new_links.push(nrow);
                proof {
                    assert(nrv == cleared(m.links[li as int], gid));
                    assert(new_links@.map_values(|l: crate::store::Link| l@) =~= pre + seq![
                        cleared(m.links[li as int], gid),
                    ]);
                    assert(links_surviving(m.links, gid, li as int) == seq![
                        cleared(m.links[li as int], gid),
                    ] + links_surviving(m.links, gid, li + 1));
                }
            } else {
                proof {
                    assert(links_surviving(m.links, gid, li as int) == links_surviving(
                        m.links,
                        gid,
                        li + 1,
                    ));
                }
            }
            li = li + 1;
        }
        self.links = new_links;
        // drop the note's tag associations
        let nt = self.note_tags.len();
        let mut new_nts: Vec<crate::store::NoteTagRow> = Vec::new();
        let mut ti: usize = 0;
        let ghost nts0 = m.note_tags;
        while ti < nt
            invariant
                0 <= ti <= nt,
                nt == self.note_tags@.len(),
                self@.note_tags == nts0,
                nts0.len() == nt as int,
                gid == id,
                new_nts@.map_values(|x: crate::store::NoteTagRow| (x.note_id, x.tag_id))
                    + note_tags_surviving(nts0, gid, ti as int) =~= note_tags_surviving(
                    nts0,
                    gid,
                    0,
                ),
            decreases nt - ti,
        {
            let ghost pre = new_nts@.map_values(|x: crate::store::NoteTagRow| (x.note_id, x.tag_id));
            proof {
                assert(nts0[ti as int] == (self.note_tags@[ti as int].note_id,
                self.note_tags@[ti as int].tag_id));
            }
            if self.note_tags[ti].note_id != id {
                let x = &self.note_tags[ti];
                new_nts.push(crate::store::NoteTagRow { note_id: x.note_id, tag_id: x.tag_id });
                proof {
                    assert(new_nts@.map_values(|x: crate::store::NoteTagRow| (x.note_id, x.tag_id))
                        =~= pre + seq![nts0[ti as int]]);
                    assert(note_tags_surviving(nts0, gid, ti as int) == seq![nts0[ti as int]]
                        + note_tags_surviving(nts0, gid, ti + 1));
                }
            } else {
                proof {
                    assert(note_tags_surviving(nts0, gid, ti as int) == note_tags_surviving(
                        nts0,
                        gid,
                        ti + 1,
                    ));
                }
            }
            ti = ti + 1;
        }
        self.note_tags = new_nts;
        proof {
            assert(self@.notes =~= m.notes.remove(k));
            assert(self@ =~= delete_note_model(m, k));
            lemma_wf_after_note_delete(m, k);
        }
        true
    }

    /// Change the path of the note at `old_path` in place; identifier,
    /// links and tags are untouched. Returns whether a note was there;
    /// fails when another note already has the new path.
    pub fn rename_note(&mut self, old_path: &str, new_path: &str) -> (r: Result<
        bool,
        StoreError,
    >)
        requires
            wf(old(self)@),
        ensures
            wf(final(self)@),
            ({
                let m = old(self)@;
                let k = note_idx_by_path(m.notes, old_path@);
                match r {
                    Ok(true) => k >= 0 && final(self)@ == StoreModel {
                        notes: m.notes.update(
                            k,
                            NoteR { path: new_path@, ..m.notes[k] },
                        ),
                        ..m
                    },
                    Ok(false) => k == -1 && final(self)@ == m,
                    Err(e) => e is DuplicatePath && k >= 0 && final(self)@ == m && (exists|j: int|
                        0 <= j < m.notes.len() && j != k && (#[trigger] m.notes[j]).path
                            == new_path@),
                }
            }),
    {
        let ghost m = self@;
        let ghost k = note_idx_by_path(m.notes, old_path@);
        proof {
            lemma_first_where_props(m.notes, |n: NoteR| n.path == old_path@);
        }
        let j = find_note_by_path(&self.notes, old_path);
        if j >= self.notes.len() {
            return Ok(false);
        }
        // reject a collision with a different existing note
        let n = self.notes.len();
        let mut c: usize = 0;
        while c < n
            invariant
                0 <= c <= n,
                n == self.notes@.len(),
                self@ == m,
                wf(m),
                j as int == k,
                0 <= k < m.notes.len(),
                note_idx_by_path(m.notes, old_path@) == k,
                forall|x: int| 0 <= x < c && x != k ==> (#[trigger] m.notes[x]).path != new_path@,
            decreases n - c,
        {
            proof {
                assert(m.notes[c as int] == self.notes@[c as int]@);
            }
            if c != j && str_eq(self.notes[c].path.as_str(), new_path) {
                return Err(StoreError::DuplicatePath);
            }
            c = c + 1;
        }
        let row = self.notes.remove(j);
        let new_row = NoteRow { path: String::from_str(new_path), ..row };
        self.notes.insert(j, new_row);
        proof {
            assert(self@.notes =~= m.notes.update(k, NoteR { path: new_path@, ..m.notes[k] }));
            assert(self@ =~= StoreModel {
                notes: m.notes.update(k, NoteR { path: new_path@, ..m.notes[k] }),
                ..m
            });
            lemma_wf_after_rename(m, self@, k, new_path@);
        }
        Ok(true)
    }
}

/// Updating one note row in place, keeping its identifier and path,
/// preserves well-formedness.
proof fn lemma_wf_after_note_update(m: StoreModel, m2: StoreModel, k: int)
    requires
        wf(m),
        0 <= k < m.notes.len(),
        m2.notes.len() == m.notes.len(),
        forall|i: int| 0 <= i < m.notes.len() && i != k ==> m2.notes[i] == m.notes[i],
        m2.notes[k].id == m.notes[k].id,
        m2.notes[k].path == m.notes[k].path,
        m2.links == m.links,
        m2.tags == m.tags,
        m2.note_tags == m.note_tags,
        m2.fts == m.fts,
        m2.next_note_id == m.next_note_id,
        m2.next_link_id == m.next_link_id,
        m2.next_tag_id == m.next_tag_id,
    ensures
        wf(m2),
{
    assert(forall|i: int| 0 <= i < m2.notes.len() ==> (#[trigger] m2.notes[i]).id == m.notes[i].id
        && m2.notes[i].path == m.notes[i].path);
    assert forall|id: i64| #[trigger] note_id_of(m, id) implies note_id_of(m2, id) by {
        let w = choose|w: int| 0 <= w < m.notes.len() && (#[trigger] m.notes[w]).id == id;
        assert(m2.notes[w].id == id);
    }
    assert forall|i: int| 0 <= i < m2.links.len() implies note_id_of(
        m2,
        (#[trigger] m2.links[i]).source_id,
    ) by {
        assert(note_id_of(m, m.links[i].source_id));
    }
    assert forall|i: int| 0 <= i < m2.links.len() implies match (#[trigger] m2.links[i]).target_id {
        Some(t) => note_id_of(m2, t),
        None => true,
    } by {
        assert(m2.links[i] == m.links[i]);
        match m.links[i].target_id {
            Some(t) => {
                assert(note_id_of(m, t));
            },
            None => {},
        }
    }
    assert forall|i: int| 0 <= i < m2.note_tags.len() implies note_id_of(
        m2,
        (#[trigger] m2.note_tags[i]).0,
    ) by {
        assert(note_id_of(m, m.note_tags[i].0));
    }
    assert forall|i: int| 0 <= i < m2.note_tags.len() implies tag_id_of(
        m2,
        (#[trigger] m2.note_tags[i]).1,
    ) by {
        assert(tag_id_of(m, m.note_tags[i].1));
        let w = choose|w: int| 0 <= w < m.tags.len() && (#[trigger] m.tags[w]).id
            == m.note_tags[i].1;
        assert(m2.tags[w].id == m.note_tags[i].1);
    }
}

/// Appending a fresh note row with an unseen path and the next
/// identifier preserves well-formedness.
proof fn lemma_wf_after_note_insert(m: StoreModel, m2: StoreModel, nr: NoteR)
    requires
        wf(m),
        m.next_note_id < i64::MAX,
        note_idx_by_path(m.notes, nr.path) == -1,
        nr.id == m.next_note_id,
        m2.notes == m.notes.push(nr),
        m2.links == m.links,
        m2.tags == m.tags,
        m2.note_tags == m.note_tags,
        m2.fts == m.fts,
        m2.next_note_id == m.next_note_id + 1,
        m2.next_link_id == m.next_link_id,
        m2.next_tag_id == m.next_tag_id,
    ensures
        wf(m2),
{
    crate::store::lemma_first_where_props(m.notes, |n: NoteR| n.path == nr.path);
    assert(forall|i: int| 0 <= i < m.notes.len() ==> (#[trigger] m.notes[i]).path != nr.path);
    assert(forall|i: int| 0 <= i < m.notes.len() ==> #[trigger] m2.notes[i] == m.notes[i]);
    assert(m2.notes[m.notes.len() as int] == nr);
    assert forall|id: i64| #[trigger] note_id_of(m, id) implies note_id_of(m2, id) by {
        let w = choose|w: int| 0 <= w < m.notes.len() && (#[trigger] m.notes[w]).id == id;
        assert(m2.notes[w].id == id);
    }
    assert forall|i: int| 0 <= i < m2.links.len() implies note_id_of(
        m2,
        (#[trigger] m2.links[i]).source_id,
    ) by {
        assert(note_id_of(m, m.links[i].source_id));
    }
    assert forall|i: int| 0 <= i < m2.links.len() implies match (#[trigger] m2.links[i]).target_id {
        Some(t) => note_id_of(m2, t),
        None => true,
    } by {
        assert(m2.links[i] == m.links[i]);
        match m.links[i].target_id {
            Some(t) => {
                assert(note_id_of(m, t));
            },
            None => {},
        }
    }
    assert forall|i: int| 0 <= i < m2.note_tags.len() implies note_id_of(
        m2,
        (#[trigger] m2.note_tags[i]).0,
    ) by {
        assert(note_id_of(m, m.note_tags[i].0));
    }
    assert forall|i: int| 0 <= i < m2.note_tags.len() implies tag_id_of(
        m2,
        (#[trigger] m2.note_tags[i]).1,
    ) by {
        let w = choose|w: int| 0 <= w < m.tags.len() && (#[trigger] m.tags[w]).id
            == m.note_tags[i].1;
        assert(m2.tags[w].id == m.note_tags[i].1);
    }
}

/// Renaming one note to a path no other note has preserves
/// well-formedness.
proof fn lemma_wf_after_rename(m: StoreModel, m2: StoreModel, k: int, path: Seq<char>)
    requires
        wf(m),
        0 <= k < m.notes.len(),
        m2.notes.len() == m.notes.len(),
        forall|i: int| 0 <= i < m.notes.len() && i != k ==> m2.notes[i] == m.notes[i],
        m2.notes[k].id == m.notes[k].id,
        m2.notes[k].path == path,
        forall|i: int| 0 <= i < m.notes.len() && i != k ==> (#[trigger] m.notes[i]).path != path,
        m2.links == m.links,
        m2.tags == m.tags,
        m2.note_tags == m.note_tags,
        m2.fts == m.fts,
        m2.next_note_id == m.next_note_id,
        m2.next_link_id == m.next_link_id,
        m2.next_tag_id == m.next_tag_id,
    ensures
        wf(m2),
{
    assert(forall|i: int| 0 <= i < m2.notes.len() ==> (#[trigger] m2.notes[i]).id
        == m.notes[i].id);
    assert forall|id: i64| #[trigger] note_id_of(m, id) implies note_id_of(m2, id) by {
        let w = choose|w: int| 0 <= w < m.notes.len() && (#[trigger] m.notes[w]).id == id;
        assert(m2.notes[w].id == id);
    }
    assert forall|i: int| 0 <= i < m2.links.len() implies note_id_of(
        m2,
        (#[trigger] m2.links[i]).source_id,
    ) by {
        assert(note_id_of(m, m.links[i].source_id));
    }
    assert forall|i: int| 0 <= i < m2.links.len() implies match (#[trigger] m2.links[i]).target_id {
        Some(t) => note_id_of(m2, t),
        None => true,
    } by {
        assert(m2.links[i] == m.links[i]);
        match m.links[i].target_id {
            Some(t) => {
                assert(note_id_of(m, t));
            },
            None => {},
        }
    }
    assert forall|i: int| 0 <= i < m2.note_tags.len() implies note_id_of(
        m2,
        (#[trigger] m2.note_tags[i]).0,
    ) by {
        assert(note_id_of(m, m.note_tags[i].0));
    }
    assert forall|i: int| 0 <= i < m2.note_tags.len() implies tag_id_of(
        m2,
        (#[trigger] m2.note_tags[i]).1,
    ) by {
        let w = choose|w: int| 0 <= w < m.tags.len() && (#[trigger] m.tags[w]).id
            == m.note_tags[i].1;
        assert(m2.tags[w].id == m.note_tags[i].1);
    }
}

/// Deleting a note and cascading preserves well-formedness.
proof fn lemma_wf_after_note_delete(m: StoreModel, k: int)
    requires
        wf(m),
        0 <= k < m.notes.len(),
    ensures
        wf(delete_note_model(m, k)),
{
    let id = m.notes[k].id;
    let m2 = delete_note_model(m, k);
    lemma_links_surviving_props(m.links, id, 0);
    lemma_note_tags_surviving_props(m.note_tags, id, 0);
    // the remaining notes are the old ones at shifted indices
    assert(forall|i: int| 0 <= i < k ==> #[trigger] m2.notes[i] == m.notes[i]);
    assert(forall|i: int| k <= i < m2.notes.len() ==> #[trigger] m2.notes[i] == m.notes[i + 1]);
    assert forall|x: i64| note_id_of(m, x) && x != id implies note_id_of(m2, x) by {
        let w = choose|w: int| 0 <= w < m.notes.len() && (#[trigger] m.notes[w]).id == x;
        assert(w != k);
        if w < k {
            assert(m2.notes[w].id == x);
        } else {
            assert(m2.notes[w - 1].id == x);
        }
    }
    assert forall|i: int| 0 <= i < m2.links.len() implies note_id_of(
        m2,
        (#[trigger] m2.links[i]).source_id,
    ) && match m2.links[i].target_id {
        Some(t) => note_id_of(m2, t),
        None => true,
    } && 0 < m2.links[i].id < m2.next_link_id by {
        let j = choose|j: int|
            0 <= j < m.links.len() && m2.links[i] == cleared(#[trigger] m.links[j], id)
                && m.links[j].source_id != id;
        assert(note_id_of(m, m.links[j].source_id));
        assert(m2.links[i].source_id == m.links[j].source_id);
        assert(note_id_of(m2, m2.links[i].source_id));
        match m2.links[i].target_id {
            Some(t) => {
                assert(m.links[j].target_id == Some(t));
                assert(t != id);
                assert(note_id_of(m, t));
                assert(note_id_of(m2, t));
            },
            None => {},
        }
    }
    assert forall|i: int| 0 <= i < m2.note_tags.len() implies note_id_of(
        m2,
        (#[trigger] m2.note_tags[i]).0,
    ) && tag_id_of(m2, m2.note_tags[i].1) by {
        let j = choose|j: int|
            0 <= j < m.note_tags.len() && #[trigger] m2.note_tags[i] == m.note_tags[j]
                && m.note_tags[j].0 != id;
        assert(note_id_of(m, m.note_tags[j].0));
        assert(note_id_of(m2, m2.note_tags[i].0));
        assert(tag_id_of(m, m.note_tags[j].1));
        let w = choose|w: int| 0 <= w < m.tags.len() && (#[trigger] m.tags[w]).id
            == m.note_tags[j].1;
        assert(m2.tags[w].id == m.note_tags[j].1);
    }
}

} // verus!
