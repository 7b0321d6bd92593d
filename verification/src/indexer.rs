//! The indexer: parse one note's text, fingerprint it, and write it
//! into the store as one all-or-nothing unit — the note row upserted
//! (identifier preserved across edits), the shadow full-text record
//! replaced, the link set replaced and resolved, the tag associations
//! replaced from the metadata block (empty when there is none). Also:
//! removing one note, and the best-effort full index over a batch of
//! files, where one file's failure skips that file only.
//!
//! Reading files and enumerating directories stay with the caller,
//! which hands in each file's vault-relative path, name, text and
//! timestamps.

use vstd::prelude::*;
use crate::store::{
    Store, StoreModel, NoteR, LinkR, FtsR, wf, note_idx_by_path, note_id_of,
    lemma_first_where_props,
};
use crate::notes::{find_note_by_path, delete_note_model};
use crate::links::{replace_links_model, LinkInput, LinkInputR};
use crate::tags::{set_note_tags_model, clip_count};
use crate::search::fts_without;
use crate::parser::{parse_note, NoteSpec, LinkSpec, spec_parse};
use crate::fingerprint::{hash_content, spec_fingerprint_hex};
use crate::text::{view_opt_str, view_opt_string};

verus! {

/// Errors of the indexing operations.
#[derive(Debug)]
pub enum IndexError {
    /// The vault root does not exist.
    VaultNotFound(String),
    /// The store rejected a write.
    Storage(String),
    /// A file could not be read; raised by callers that do the
    /// reading.
    Io(String),
}

/// The indexer for one vault, remembering the vault root.
pub struct Indexer {
    pub vault_path: String,
}

// ---------------------------------------------------------------------
// The indexing model
// ---------------------------------------------------------------------

/// The identifier the upsert assigns: the existing row's, or the next
/// fresh one.
pub open spec fn upsert_id(m: StoreModel, path: Seq<char>) -> i64 {
    let k = note_idx_by_path(m.notes, path);
    if k >= 0 {
        m.notes[k].id
    } else {
        m.next_note_id
    }
}

/// The store model after upserting one note row.
pub open spec fn upsert_note_model(
    m: StoreModel,
    path: Seq<char>,
    title: Seq<char>,
    created: Option<Seq<char>>,
    modified: Option<Seq<char>>,
    hash: Seq<char>,
    wc: i32,
) -> StoreModel {
    let k = note_idx_by_path(m.notes, path);
    if k >= 0 {
        StoreModel {
            notes: m.notes.update(
                k,
                NoteR {
                    id: m.notes[k].id,
                    path: m.notes[k].path,
                    title: title,
                    created_at: m.notes[k].created_at,
                    modified_at: modified,
                    content_hash: hash,
                    word_count: wc,
                },
            ),
            ..m
        }
    } else {
        StoreModel {
            notes: m.notes.push(
                NoteR {
                    id: m.next_note_id,
                    path: path,
                    title: title,
                    created_at: created,
                    modified_at: modified,
                    content_hash: hash,
                    word_count: wc,
                },
            ),
            next_note_id: (m.next_note_id + 1) as i64,
            ..m
        }
    }
}

/// An extracted link as the store takes it.
pub open spec fn link_input_of(l: LinkSpec) -> LinkInputR {
    LinkInputR { target: l.target, display: l.display, line: Some(clip_count(l.line)) }
}

/// The tag names of a parsed note: the metadata block's list, or none.
pub open spec fn note_tags_of(p: NoteSpec) -> Seq<Seq<char>> {
    match p.frontmatter {
        Some(f) => f.tags,
        None => Seq::empty(),
    }
}

/// Whether indexing this file can complete: none of the three
/// identifier counters would run out.
pub open spec fn index_step_ok(m: StoreModel, rel: Seq<char>, p: NoteSpec) -> bool {
    &&& (note_idx_by_path(m.notes, rel) >= 0 || m.next_note_id < i64::MAX)
    &&& p.links.len() <= i64::MAX - m.next_link_id
    &&& note_tags_of(p).len() <= i64::MAX - m.next_tag_id
}

/// The store model after indexing one file: note row upserted, shadow
/// record replaced, links replaced and resolved, tag associations
/// replaced.
pub open spec fn index_note_model(
    m: StoreModel,
    rel: Seq<char>,
    fname: Seq<char>,
    content: Seq<char>,
    created: Option<Seq<char>>,
    modified: Option<Seq<char>>,
) -> StoreModel {
    let p = spec_parse(content, fname);
    let wc = clip_count(p.word_count as int);
    let hash = spec_fingerprint_hex(content);
    let id = upsert_id(m, rel);
    let m1 = upsert_note_model(m, rel, p.title, created, modified, hash, wc);
    let m2 = StoreModel {
        fts: fts_without(m1.fts, id, 0).push(
            FtsR { note_id: id, title: p.title, content: content },
        ),
        ..m1
    };
    let m3 = replace_links_model(m2, id, p.links.map_values(|l: LinkSpec| link_input_of(l)));
    set_note_tags_model(m3, id, note_tags_of(p))
}

impl Indexer {
    /// An indexer for the vault at `vault_path`; the caller says
    /// whether that directory exists, and a missing vault is refused.
    pub fn new(vault_path: String, path_exists: bool) -> (r: Result<Indexer, IndexError>)
        ensures
            match r {
                Ok(ix) => path_exists && ix.vault_path@ == vault_path@,
                Err(e) => !path_exists && e is VaultNotFound,
            },
    {
        if !path_exists {
            let msg = String::from_str(vault_path.as_str());
            return Err(IndexError::VaultNotFound(msg));
        }
        Ok(Indexer { vault_path })
    }

    /// Index one note's text under its vault-relative path: parse,
    /// fingerprint, and write note row, shadow record, links and tags
    /// as one unit. Fails, leaving the store unchanged, only when an
    /// identifier counter would run out.
    pub fn index_note(
        &self,
        store: &mut Store,
        rel_path: &str,
        filename: &str,
        content: &str,
        created: Option<&str>,
        modified: Option<&str>,
    ) -> (r: Result<i64, IndexError>)
        requires
            wf(old(store)@),
        ensures
            wf(final(store)@),
            ({
                let m = old(store)@;
                let p = spec_parse(content@, filename@);
                match r {
                    Ok(id) => index_step_ok(m, rel_path@, p) && id == upsert_id(m, rel_path@)
                        && final(store)@ == index_note_model(
                        m,
                        rel_path@,
                        filename@,
                        content@,
                        view_opt_str(created),
                        view_opt_str(modified),
                    ),
                    Err(e) => e is Storage && !index_step_ok(m, rel_path@, p) && final(store)@
                        == m,
                }
            }),
    {
        let ghost m = store@;
        let ghost pspec = spec_parse(content@, filename@);
        let parsed = parse_note(content, filename);
        proof {
            assert(parsed@ == pspec);
            lemma_first_where_props(m.notes, |n: NoteR| n.path == rel_path@);
        }
        // refuse up front anything that could not complete, so that a
        // failure writes nothing
        let j = find_note_by_path(&store.notes, rel_path);
        if j >= store.notes.len() && store.next_note_id == i64::MAX {
            return Err(IndexError::Storage(String::from_str("note identifiers exhausted")));
        }
        let link_room = i64::MAX - store.next_link_id;
        if parsed.links.len() as u64 > link_room as u64 {
            return Err(IndexError::Storage(String::from_str("link identifiers exhausted")));
        }
        let tag_count: usize = match &parsed.frontmatter {
            Some(f) => f.tags.len(),
            None => 0,
        };
        let tag_room = i64::MAX - store.next_tag_id;
        if tag_count as u64 > tag_room as u64 {
            return Err(IndexError::Storage(String::from_str("tag identifiers exhausted")));
        }
        proof {
            assert(index_step_ok(m, rel_path@, pspec));
        }
        let hash = hash_content(content);
        let wc: i32 = if parsed.word_count > (i32::MAX as usize) {
            i32::MAX
        } else {
            parsed.word_count as i32
        };
        proof {
            assert(wc as int == clip_count(pspec.word_count as int) as int);
        }
        let id = match store.upsert_note(rel_path, parsed.title.as_str(), created, modified,
            hash.as_str(), wc) {
            Ok(id) => id,
            Err(_) => {
                proof {
                    assert(false);
                }
                return Err(IndexError::Storage(String::new()));
            },
        };
        let ghost m1 = store@;
        proof {
            assert(id == upsert_id(m, rel_path@));
            assert(m1 == upsert_note_model(m, rel_path@, pspec.title, view_opt_str(created),
                view_opt_str(modified), spec_fingerprint_hex(content@), clip_count(
                pspec.word_count as int)));
        }
        store.update_fts(id, parsed.title.as_str(), content);
        let ghost m2 = store@;
        // the freshly extracted links, first occurrence per line kept
        let nl = parsed.links.len();
        let mut inputs: Vec<LinkInput> = Vec::new();
        let mut li: usize = 0;
        while li < nl
            invariant
                0 <= li <= nl,
                nl == parsed.links@.len(),
                parsed@ == pspec,
                pspec.links.len() == nl as int,
                inputs@.len() == li as int,
                forall|j: int|
                    0 <= j < li ==> (#[trigger] inputs@[j])@ == link_input_of(pspec.links[j]),
            decreases nl - li,
        {
            let l = &parsed.links[li];
            let inp = LinkInput {
                target: String::from_str(l.target.as_str()),
                display: match &l.display {
                    Some(s) => Some(String::from_str(s.as_str())),
                    None => None,
                },
                line: if l.line_number > (i32::MAX as usize) {
                    Some(i32::MAX)
                } else {
                    Some(l.line_number as i32)
                },
            };
            let ghost iv = inp@;
            inputs.push(inp);
            proof {
                assert(parsed.links@[li as int]@ == pspec.links[li as int]);
                assert(iv == link_input_of(pspec.links[li as int]));
            }
            li = li + 1;
        }
        proof {
            let lhs = inputs@.map_values(|x: LinkInput| x@);
            let rhs = pspec.links.map_values(|l: LinkSpec| link_input_of(l));
            assert forall|j: int| 0 <= j < lhs.len() implies #[trigger] lhs[j] == rhs[j] by {
                assert(inputs@[j]@ == link_input_of(pspec.links[j]));
            }
            assert(lhs =~= rhs);
        }
        proof {
            // the upserted row makes the note exist in every later model
            lemma_upsert_makes_note(m, rel_path@, pspec.title, view_opt_str(created),
                view_opt_str(modified), spec_fingerprint_hex(content@), clip_count(
                pspec.word_count as int));
            assert(note_id_of(m1, id));
            assert(m2.notes == m1.notes && m2.next_link_id == m1.next_link_id);
            assert(note_id_of(m2, id));
        }
        match store.replace_links(id, &inputs) {
            Ok(_) => {},
            Err(_) => {
                proof {
                    assert(false);
                }
                return Err(IndexError::Storage(String::new()));
            },
        }
        let ghost m3 = store@;
        proof {
            assert(m3 == replace_links_model(m2, id, pspec.links.map_values(
                |l: LinkSpec| link_input_of(l))));
            assert(m3.notes == m2.notes && m3.next_tag_id == m2.next_tag_id);
            assert(note_id_of(m3, id));
        }
        let tag_names: Vec<String> = match &parsed.frontmatter {
            Some(f) => {
                let nt = f.tags.len();
                let mut names: Vec<String> = Vec::new();
                let mut ti: usize = 0;
                while ti < nt
                    invariant
                        0 <= ti <= nt,
                        nt == f.tags@.len(),
                        names@.len() == ti as int,
                        forall|j: int| 0 <= j < ti ==> (#[trigger] names@[j])@ == f.tags@[j]@,
                    decreases nt - ti,
                {
                    names.push(String::from_str(f.tags[ti].as_str()));
                    ti = ti + 1;
                }
                proof {
                    let lhs = names@.map_values(|s: String| s@);
                    let rhs = f.tags@.map_values(|s: String| s@);
                    assert forall|j: int| 0 <= j < lhs.len() implies #[trigger] lhs[j]
                        == rhs[j] by {
                        assert(names@[j]@ == f.tags@[j]@);
                    }
                    assert(lhs =~= rhs);
                }
                names
            },
            None => Vec::new(),
        };
        proof {
            assert(tag_names@.map_values(|s: String| s@) =~= note_tags_of(pspec));
        }
        match store.set_note_tags(id, &tag_names) {
            Ok(_) => {},
            Err(_) => {
                proof {
                    assert(false);
                }
                return Err(IndexError::Storage(String::new()));
            },
        }
        proof {
            assert(final(store)@ == index_note_model(m, rel_path@, filename@, content@,
                view_opt_str(created), view_opt_str(modified)));
        }
        Ok(id)
    }

    /// Remove one note by its vault-relative path: the shadow record,
    /// the note row, its links and its tag associations go; links of
    /// other notes that pointed at it lose their resolution. Removing
    /// an absent path does nothing and is not an error.
    pub fn remove_note(&self, store: &mut Store, rel_path: &str) -> (r: bool)
        requires
            wf(old(store)@),
        ensures
            wf(final(store)@),
            ({
                let m = old(store)@;
                let k = note_idx_by_path(m.notes, rel_path@);
                if k >= 0 {
                    r == true && final(store)@ == delete_note_model(
                        StoreModel { fts: fts_without(m.fts, m.notes[k].id, 0), ..m },
                        k,
                    )
                } else {
                    r == false && final(store)@ == (StoreModel {
                        fts: m.fts,
                        ..m
                    })
                }
            }),
    {
        let ghost m = store@;
        proof {
            lemma_first_where_props(m.notes, |n: NoteR| n.path == rel_path@);
        }
        let j = find_note_by_path(&store.notes, rel_path);
        if j < store.notes.len() {
            let id = store.notes[j].id;
            proof {
                assert(m.notes[j as int] == store.notes@[j as int]@);
            }
            store.delete_fts(id);
            let ghost mf = store@;
            proof {
                assert(note_idx_by_path(mf.notes, rel_path@) == j as int) by {
                    assert(mf.notes == m.notes);
                }
            }
            let r = store.delete_note(rel_path);
            proof {
                assert(r == true);
            }
            r
        } else {
            proof {
                assert(store@ =~= StoreModel { fts: m.fts, ..m });
            }
            false
        }
    }
}

// ---------------------------------------------------------------------
// Full index
// ---------------------------------------------------------------------

/// One note file as handed in by the caller: vault-relative path, file
/// name, text, and timestamps from file metadata.
pub struct NoteFile {
    pub rel_path: String,
    pub filename: String,
    pub content: String,
    pub created: Option<String>,
    pub modified: Option<String>,
}

#[verifier::ext_equal]
pub struct NoteFileR {
    pub rel_path: Seq<char>,
    pub filename: Seq<char>,
    pub content: Seq<char>,
    pub created: Option<Seq<char>>,
    pub modified: Option<Seq<char>>,
}

impl View for NoteFile {
    type V = NoteFileR;

    open spec fn view(&self) -> NoteFileR {
        NoteFileR {
            rel_path: self.rel_path@,
            filename: self.filename@,
            content: self.content@,
            created: view_opt_string(self.created),
            modified: view_opt_string(self.modified),
        }
    }
}

/// The store model after the first `i` files of a batch: each file
/// that can complete is indexed, any other is skipped.
pub open spec fn index_files_model(m: StoreModel, files: Seq<NoteFileR>, i: int) -> StoreModel
    decreases i,
{
    if i <= 0 {
        m
    } else {
        let prev = index_files_model(m, files, i - 1);
        let f = files[i - 1];
        if index_step_ok(prev, f.rel_path, spec_parse(f.content, f.filename)) {
            index_note_model(prev, f.rel_path, f.filename, f.content, f.created, f.modified)
        } else {
            prev
        }
    }
}

/// How many of the first `i` files were indexed.
pub open spec fn index_files_count(m: StoreModel, files: Seq<NoteFileR>, i: int) -> int
    decreases i,
{
    if i <= 0 {
        0
    } else {
        let prev = index_files_model(m, files, i - 1);
        let f = files[i - 1];
        index_files_count(m, files, i - 1) + (if index_step_ok(
            prev,
            f.rel_path,
            spec_parse(f.content, f.filename),
        ) {
            1int
        } else {
            0int
        })
    }
}

/// Whether every one of the first `i` files can complete.
pub open spec fn steps_ok(m: StoreModel, files: Seq<NoteFileR>, i: int) -> bool
    decreases i,
{
    if i <= 0 {
        true
    } else {
        steps_ok(m, files, i - 1) && index_step_ok(
            index_files_model(m, files, i - 1),
            files[i - 1].rel_path,
            spec_parse(files[i - 1].content, files[i - 1].filename),
        )
    }
}

impl Indexer {
    /// Index a whole batch of note files, one at a time, counting the
    /// files indexed. One file's failure skips that file and the scan
    /// goes on: the full index is best-effort.
    pub fn index_all(&self, store: &mut Store, files: &Vec<NoteFile>) -> (count: usize)
        requires
            wf(old(store)@),
        ensures
            wf(final(store)@),
            count <= files@.len(),
            final(store)@ == index_files_model(
                old(store)@,
                files@.map_values(|f: NoteFile| f@),
                files@.len() as int,
            ),
            count as int == index_files_count(
                old(store)@,
                files@.map_values(|f: NoteFile| f@),
                files@.len() as int,
            ),
    {
        let ghost m = store@;
        let ghost fv = files@.map_values(|f: NoteFile| f@);
        let n = files.len();
        let mut count: usize = 0;
        let mut i: usize = 0;
        while i < n
            invariant
                0 <= i <= n,
                n == files@.len(),
                fv == files@.map_values(|f: NoteFile| f@),
                fv.len() == n as int,
                wf(store@),
                count <= i,
                store@ == index_files_model(m, fv, i as int),
                count as int == index_files_count(m, fv, i as int),
            decreases n - i,
        {
            let f = &files[i];
            proof {
                assert(fv[i as int] == files@[i as int]@);
            }
            let created: Option<&str> = match &f.created {
                Some(s) => Some(s.as_str()),
                None => None,
            };
            let modified: Option<&str> = match &f.modified {
                Some(s) => Some(s.as_str()),
                None => None,
            };
            proof {
                assert(view_opt_str(created) == fv[i as int].created);
                assert(view_opt_str(modified) == fv[i as int].modified);
            }
            match self.index_note(store, f.rel_path.as_str(), f.filename.as_str(),
                f.content.as_str(), created, modified) {
                Ok(_) => {
                    count = count + 1;
                },
                Err(_) => {},
            }
            i = i + 1;
        }
        count
    }
}

/// A path stands in the note table.
pub open spec fn has_path(notes: Seq<NoteR>, p: Seq<char>) -> bool {
    exists|i: int| 0 <= i < notes.len() && (#[trigger] notes[i]).path == p
}

/// A path stands in the table exactly when the lookup finds it.
pub proof fn lemma_has_path_idx(notes: Seq<NoteR>, p: Seq<char>)
    ensures
        has_path(notes, p) <==> note_idx_by_path(notes, p) >= 0,
{
    lemma_first_where_props(notes, |n: NoteR| n.path == p);
    let k = note_idx_by_path(notes, p);
    if k >= 0 {
        assert(notes[k].path == p);
    } else {
        if has_path(notes, p) {
            let w = choose|w: int| 0 <= w < notes.len() && (#[trigger] notes[w]).path == p;
            assert(false);
        }
    }
}

/// Indexing one file touches exactly its own path: a present path
/// keeps the row count, a fresh one adds one row, and the set of paths
/// gains at most the file's own.
pub proof fn lemma_index_note_paths(
    m: StoreModel,
    rel: Seq<char>,
    fname: Seq<char>,
    content: Seq<char>,
    created: Option<Seq<char>>,
    modified: Option<Seq<char>>,
)
    ensures
        ({
            let m2 = index_note_model(m, rel, fname, content, created, modified);
            &&& m2.notes.len() as int == (if note_idx_by_path(m.notes, rel) >= 0 {
                m.notes.len() as int
            } else {
                (m.notes.len() + 1) as int
            })
            &&& forall|p: Seq<char>|
                #[trigger] has_path(m2.notes, p) <==> (has_path(m.notes, p) || p == rel)
            &&& note_idx_by_path(m.notes, rel) >= 0 ==> m2.notes.len() == m.notes.len()
                && (forall|x: int|
                0 <= x < m.notes.len() ==> (#[trigger] m2.notes[x]).id == m.notes[x].id
                    && m2.notes[x].path == m.notes[x].path)
        }),
{
    let k = note_idx_by_path(m.notes, rel);
    lemma_first_where_props(m.notes, |n: NoteR| n.path == rel);
    let m2 = index_note_model(m, rel, fname, content, created, modified);
    let m1 = upsert_note_model(m, rel, spec_parse(content, fname).title, created, modified,
        spec_fingerprint_hex(content), clip_count(spec_parse(content, fname).word_count as int));
    assert(m2.notes == m1.notes);
    assert forall|p: Seq<char>| #[trigger] has_path(m2.notes, p) implies (has_path(m.notes, p)
        || p == rel) by {
        let w = choose|w: int| 0 <= w < m2.notes.len() && (#[trigger] m2.notes[w]).path == p;
        if k >= 0 {
            if w == k {
                assert(m.notes[k].path == p);
            } else {
                assert(m2.notes[w] == m.notes[w]);
            }
        } else {
            if w < m.notes.len() {
                assert(m2.notes[w] == m.notes[w]);
            } else {
                assert(m2.notes[w].path == rel);
            }
        }
    }
    assert forall|p: Seq<char>| has_path(m.notes, p) || p == rel implies #[trigger] has_path(
        m2.notes,
        p,
    ) by {
        if has_path(m.notes, p) {
            let w = choose|w: int| 0 <= w < m.notes.len() && (#[trigger] m.notes[w]).path == p;
            if k >= 0 {
                if w == k {
                    assert(m2.notes[k].path == m.notes[k].path);
                } else {
                    assert(m2.notes[w] == m.notes[w]);
                }
            } else {
                assert(m2.notes[w] == m.notes[w]);
            }
        } else {
            if k >= 0 {
                assert(m2.notes[k].path == m.notes[k].path);
                assert(m.notes[k].path == rel);
            } else {
                assert(m2.notes[m.notes.len() as int].path == rel);
            }
        }
    }
}

/// A full index of files with pairwise distinct paths, none of them
/// indexed yet, counts every file and adds exactly one note row per
/// file, when no identifier counter runs out along the way.
pub proof fn lemma_full_index_fresh(m: StoreModel, files: Seq<NoteFileR>, i: int)
    requires
        0 <= i <= files.len(),
        forall|a: int, b: int|
            0 <= a < b < files.len() ==> (#[trigger] files[a]).rel_path != (
            #[trigger] files[b]).rel_path,
        forall|j: int| 0 <= j < files.len() ==> !has_path(m.notes, (#[trigger] files[j]).rel_path),
        steps_ok(m, files, i),
    ensures
        index_files_count(m, files, i) == i,
        index_files_model(m, files, i).notes.len() == m.notes.len() + i,
        forall|p: Seq<char>|
            #[trigger] has_path(index_files_model(m, files, i).notes, p) <==> (has_path(
                m.notes,
                p,
            ) || exists|j: int| 0 <= j < i && (#[trigger] files[j]).rel_path == p),
    decreases i,
{
    if i > 0 {
        lemma_full_index_fresh(m, files, i - 1);
        let prev = index_files_model(m, files, i - 1);
        let f = files[i - 1];
        // this file's path is not yet indexed: it is absent from the
        // starting table, and no earlier file shares it
        assert(!has_path(prev.notes, f.rel_path)) by {
            if has_path(prev.notes, f.rel_path) {
                assert(has_path(m.notes, f.rel_path) || exists|j: int|
                    0 <= j < i - 1 && (#[trigger] files[j]).rel_path == f.rel_path);
            }
        }
        lemma_has_path_idx(prev.notes, f.rel_path);
        lemma_index_note_paths(prev, f.rel_path, f.filename, f.content, f.created, f.modified);
        let cur = index_files_model(m, files, i);
        assert forall|p: Seq<char>| #[trigger] has_path(cur.notes, p) implies (has_path(
            m.notes,
            p,
        ) || exists|j: int| 0 <= j < i && (#[trigger] files[j]).rel_path == p) by {
            if p == f.rel_path {
                assert(files[i - 1].rel_path == p);
            }
        }
        assert forall|p: Seq<char>| has_path(m.notes, p) || exists|j: int|
            0 <= j < i && (#[trigger] files[j]).rel_path == p implies #[trigger] has_path(
            cur.notes,
            p,
        ) by {
            if !has_path(m.notes, p) {
                let j = choose|j: int| 0 <= j < i && (#[trigger] files[j]).rel_path == p;
                if j < i - 1 {
                    assert(has_path(prev.notes, p));
                }
            }
        }
    }
}

/// A second full index over the same files — every path already
/// indexed — still counts every file, adds no note row, and every note
/// keeps its identifier and path.
pub proof fn lemma_full_index_again(m: StoreModel, files: Seq<NoteFileR>, i: int)
    requires
        0 <= i <= files.len(),
        forall|j: int| 0 <= j < files.len() ==> has_path(m.notes, (#[trigger] files[j]).rel_path),
        steps_ok(m, files, i),
    ensures
        index_files_count(m, files, i) == i,
        index_files_model(m, files, i).notes.len() == m.notes.len(),
        forall|x: int|
            0 <= x < m.notes.len() ==> (#[trigger] index_files_model(m, files, i).notes[x]).id
                == m.notes[x].id && index_files_model(m, files, i).notes[x].path
                == m.notes[x].path,
        forall|p: Seq<char>|
            #[trigger] has_path(index_files_model(m, files, i).notes, p) <==> has_path(
                m.notes,
                p,
            ),
    decreases i,
{
    if i > 0 {
        lemma_full_index_again(m, files, i - 1);
        let prev = index_files_model(m, files, i - 1);
        let cur = index_files_model(m, files, i);
        let f = files[i - 1];
        assert(has_path(prev.notes, f.rel_path));
        lemma_has_path_idx(prev.notes, f.rel_path);
        lemma_index_note_paths(prev, f.rel_path, f.filename, f.content, f.created, f.modified);
        assert forall|x: int| 0 <= x < m.notes.len() implies (#[trigger] cur.notes[x]).id
            == m.notes[x].id && cur.notes[x].path == m.notes[x].path by {
            assert(prev.notes[x].id == m.notes[x].id && prev.notes[x].path == m.notes[x].path);
            assert(cur.notes[x].id == prev.notes[x].id && cur.notes[x].path
                == prev.notes[x].path);
        }
    }
}

// ---------------------------------------------------------------------
// Laws of removal
// ---------------------------------------------------------------------

/// Removing a note leaves no shadow record, link or tag association of
/// its own behind — so no search hit can carry its identifier — while
/// every link of another note survives with its raw target as written,
/// its resolution cleared when it pointed at the removed note.
pub proof fn lemma_remove_note_effects(m: StoreModel, k: int)
    requires
        wf(m),
        0 <= k < m.notes.len(),
    ensures
        ({
            let id = m.notes[k].id;
            let m2 = delete_note_model(
                StoreModel { fts: crate::search::fts_without(m.fts, id, 0), ..m },
                k,
            );
            &&& forall|j: int| 0 <= j < m2.fts.len() ==> (#[trigger] m2.fts[j]).note_id != id
            &&& forall|j: int| 0 <= j < m2.links.len() ==> (#[trigger] m2.links[j]).source_id
                != id
            &&& forall|j: int| 0 <= j < m2.note_tags.len() ==> (#[trigger] m2.note_tags[j]).0
                != id
            &&& forall|j: int|
                0 <= j < m.links.len() && (#[trigger] m.links[j]).source_id != id
                    ==> exists|x: int|
                    0 <= x < m2.links.len() && #[trigger] m2.links[x] == crate::notes::cleared(
                        m.links[j],
                        id,
                    )
        }),
{
    let id = m.notes[k].id;
    let mf = StoreModel { fts: crate::search::fts_without(m.fts, id, 0), ..m };
    let m2 = delete_note_model(mf, k);
    crate::search::lemma_fts_without_props(m.fts, id, 0);
    crate::notes::lemma_links_surviving_props(m.links, id, 0);
    assert forall|j: int| 0 <= j < m2.links.len() implies (#[trigger] m2.links[j]).source_id
        != id by {
        let w = choose|w: int|
            0 <= w < m.links.len() && m2.links[j] == crate::notes::cleared(
                #[trigger] m.links[w],
                id,
            ) && m.links[w].source_id != id;
        assert(m2.links[j].source_id == m.links[w].source_id);
    }
    crate::notes::lemma_note_tags_surviving_props(m.note_tags, id, 0);
    assert forall|j: int| 0 <= j < m2.note_tags.len() implies (#[trigger] m2.note_tags[j]).0
        != id by {
        let w = choose|w: int|
            0 <= w < m.note_tags.len() && #[trigger] m2.note_tags[j] == m.note_tags[w]
                && m.note_tags[w].0 != id;
    }
    assert forall|j: int| 0 <= j < m.links.len() && (#[trigger] m.links[j]).source_id != id
        implies exists|x: int|
        0 <= x < m2.links.len() && #[trigger] m2.links[x] == crate::notes::cleared(
            m.links[j],
            id,
        ) by {
        lemma_surviving_complete(m.links, id, 0, j);
    }
}

/// Every link of another note has a surviving, possibly cleared, copy.
proof fn lemma_surviving_complete(links: Seq<LinkR>, id: i64, i: int, j: int)
    requires
        0 <= i <= j < links.len(),
        links[j].source_id != id,
    ensures
        exists|x: int|
            0 <= x < crate::notes::links_surviving(links, id, i).len()
                && #[trigger] crate::notes::links_surviving(links, id, i)[x]
                == crate::notes::cleared(links[j], id),
    decreases j - i,
{
    let r = crate::notes::links_surviving(links, id, i);
    let rest = crate::notes::links_surviving(links, id, i + 1);
    if i == j {
        assert(r[0] == crate::notes::cleared(links[j], id));
    } else {
        lemma_surviving_complete(links, id, i + 1, j);
        let x = choose|x: int|
            0 <= x < rest.len() && #[trigger] rest[x] == crate::notes::cleared(links[j], id);
        if links[i].source_id == id {
            assert(r[x] == rest[x]);
        } else {
            assert(r[x + 1] == rest[x]);
        }
    }
}

/// After the upsert, a note with the assigned identifier exists.
proof fn lemma_upsert_makes_note(
    m: StoreModel,
    path: Seq<char>,
    title: Seq<char>,
    created: Option<Seq<char>>,
    modified: Option<Seq<char>>,
    hash: Seq<char>,
    wc: i32,
)
    ensures
        ({
            let m1 = upsert_note_model(m, path, title, created, modified, hash, wc);
            note_id_of(m1, upsert_id(m, path))
        }),
{
    let k = note_idx_by_path(m.notes, path);
    let m1 = upsert_note_model(m, path, title, created, modified, hash, wc);
    lemma_first_where_props(m.notes, |n: NoteR| n.path == path);
    if k >= 0 {
        assert(m1.notes[k].id == upsert_id(m, path));
    } else {
        assert(m1.notes[m.notes.len() as int].id == upsert_id(m, path));
    }
}

} // verus!
