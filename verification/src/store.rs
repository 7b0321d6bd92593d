//! The relational schema of the index, held as an arena of rows with
//! stable integer identifiers: notes (path unique), links (owned by
//! their source note), tags (name unique case-insensitively), note-tag
//! associations, and one shadow full-text record per note. The
//! referential invariants — unique identifiers, unique paths, links and
//! associations pointing only at existing rows — are the store's
//! well-formedness, established by the constructor and preserved by
//! every operation.

use vstd::prelude::*;
use crate::text::fold;

verus! {

// ---------------------------------------------------------------------
// Rows and their spec-level views
// ---------------------------------------------------------------------

/// One indexed note.
pub struct NoteRow {
    pub id: i64,
    pub path: String,
    pub title: String,
    pub created_at: Option<String>,
    pub modified_at: Option<String>,
    pub content_hash: String,
    pub word_count: i32,
}

/// One wiki-link occurrence, owned by its source note.
pub struct Link {
    pub id: i64,
    pub source_id: i64,
    pub target_path: String,
    pub target_id: Option<i64>,
    pub display_text: Option<String>,
    pub line_number: Option<i32>,
}

/// One distinct tag name; the first-seen casing is canonical.
pub struct TagRow {
    pub id: i64,
    pub name: String,
}

/// One note-tag association.
pub struct NoteTagRow {
    pub note_id: i64,
    pub tag_id: i64,
}

/// The shadow full-text record of one note.
pub struct FtsRow {
    pub note_id: i64,
    pub title: String,
    pub content: String,
}

#[verifier::ext_equal]
pub struct NoteR {
    pub id: i64,
    pub path: Seq<char>,
    pub title: Seq<char>,
    pub created_at: Option<Seq<char>>,
    pub modified_at: Option<Seq<char>>,
    pub content_hash: Seq<char>,
    pub word_count: i32,
}

#[verifier::ext_equal]
pub struct LinkR {
    pub id: i64,
    pub source_id: i64,
    pub target_path: Seq<char>,
    pub target_id: Option<i64>,
    pub display_text: Option<Seq<char>>,
    pub line_number: Option<i32>,
}

#[verifier::ext_equal]
pub struct TagR {
    pub id: i64,
    pub name: Seq<char>,
}

#[verifier::ext_equal]
pub struct FtsR {
    pub note_id: i64,
    pub title: Seq<char>,
    pub content: Seq<char>,
}

impl View for NoteRow {
    type V = NoteR;

    open spec fn view(&self) -> NoteR {
        NoteR {
            id: self.id,
            path: self.path@,
            title: self.title@,
            created_at: crate::text::view_opt_string(self.created_at),
            modified_at: crate::text::view_opt_string(self.modified_at),
            content_hash: self.content_hash@,
            word_count: self.word_count,
        }
    }
}

impl View for Link {
    type V = LinkR;

    open spec fn view(&self) -> LinkR {
        LinkR {
            id: self.id,
            source_id: self.source_id,
            target_path: self.target_path@,
            target_id: self.target_id,
            display_text: crate::text::view_opt_string(self.display_text),
            line_number: self.line_number,
        }
    }
}

impl View for TagRow {
    type V = TagR;

    open spec fn view(&self) -> TagR {
        TagR { id: self.id, name: self.name@ }
    }
}

impl View for FtsRow {
    type V = FtsR;

    open spec fn view(&self) -> FtsR {
        FtsR { note_id: self.note_id, title: self.title@, content: self.content@ }
    }
}

/// The whole store, at the spec level.
#[verifier::ext_equal]
pub struct StoreModel {
    pub notes: Seq<NoteR>,
    pub links: Seq<LinkR>,
    pub tags: Seq<TagR>,
    pub note_tags: Seq<(i64, i64)>,
    pub fts: Seq<FtsR>,
    pub next_note_id: i64,
    pub next_link_id: i64,
    pub next_tag_id: i64,
}

/// The store: the four relational tables, the shadow full-text table,
/// and the identifier counters.
pub struct Store {
    pub notes: Vec<NoteRow>,
    pub links: Vec<Link>,
    pub tags: Vec<TagRow>,
    pub note_tags: Vec<NoteTagRow>,
    pub fts: Vec<FtsRow>,
    pub next_note_id: i64,
    pub next_link_id: i64,
    pub next_tag_id: i64,
}

impl View for Store {
    type V = StoreModel;

    open spec fn view(&self) -> StoreModel {
        StoreModel {
            notes: self.notes@.map_values(|n: NoteRow| n@),
            links: self.links@.map_values(|l: Link| l@),
            tags: self.tags@.map_values(|t: TagRow| t@),
            note_tags: self.note_tags@.map_values(|nt: NoteTagRow| (nt.note_id, nt.tag_id)),
            fts: self.fts@.map_values(|f: FtsRow| f@),
            next_note_id: self.next_note_id,
            next_link_id: self.next_link_id,
            next_tag_id: self.next_tag_id,
        }
    }
}

// ---------------------------------------------------------------------
// Row lookups
// ---------------------------------------------------------------------

/// Least index at or after `i` whose element satisfies `p`, or `-1`.
pub open spec fn first_at<T>(s: Seq<T>, p: spec_fn(T) -> bool, i: int) -> int
    decreases s.len() - i,
{
    if i < 0 || i >= s.len() {
        -1
    } else if p(s[i]) {
        i
    } else {
        first_at(s, p, i + 1)
    }
}

/// Least index whose element satisfies `p`, or `-1`.
pub open spec fn first_where<T>(s: Seq<T>, p: spec_fn(T) -> bool) -> int {
    first_at(s, p, 0)
}

pub proof fn lemma_first_where_props<T>(s: Seq<T>, p: spec_fn(T) -> bool)
    ensures
        -1 <= first_where(s, p) < s.len(),
        first_where(s, p) >= 0 ==> p(s[first_where(s, p)]),
        forall|j: int| 0 <= j < first_where(s, p) ==> !p(s[j]),
        first_where(s, p) == -1 ==> forall|j: int| 0 <= j < s.len() ==> !p(s[j]),
{
    lemma_first_at_props(s, p, 0);
}

proof fn lemma_first_at_props<T>(s: Seq<T>, p: spec_fn(T) -> bool, i: int)
    requires
        0 <= i <= s.len(),
    ensures
        first_at(s, p, i) == -1 || i <= first_at(s, p, i) < s.len(),
        first_at(s, p, i) >= 0 ==> p(s[first_at(s, p, i)]),
        forall|j: int| i <= j < first_at(s, p, i) ==> !p(s[j]),
        first_at(s, p, i) == -1 ==> forall|j: int| i <= j < s.len() ==> !p(s[j]),
    decreases s.len() - i,
{
    if i < s.len() && !p(s[i]) {
        lemma_first_at_props(s, p, i + 1);
    }
}

/// If `p` fails on `[i, m)` and `m` is the length or satisfies `p`, then
/// the scan from `i` stops exactly at `m` (or finds nothing).
pub proof fn lemma_first_at_char<T>(s: Seq<T>, p: spec_fn(T) -> bool, i: int, m: int)
    requires
        0 <= i <= m <= s.len(),
        forall|j: int| i <= j < m ==> !p(s[j]),
        m < s.len() ==> p(s[m]),
    ensures
        first_at(s, p, i) == if m < s.len() {
            m
        } else {
            -1
        },
    decreases m - i,
{
    if i < m {
        lemma_first_at_char(s, p, i + 1, m);
    }
}

/// First index of the note with exactly this path, or `-1`.
pub open spec fn note_idx_by_path(notes: Seq<NoteR>, path: Seq<char>) -> int {
    first_where(notes, |n: NoteR| n.path == path)
}

/// First index of the note with this identifier, or `-1`.
pub open spec fn note_idx_by_id(notes: Seq<NoteR>, id: i64) -> int {
    first_where(notes, |n: NoteR| n.id == id)
}

// ---------------------------------------------------------------------
// Well-formedness
// ---------------------------------------------------------------------

pub open spec fn note_id_of(m: StoreModel, id: i64) -> bool {
    exists|i: int| 0 <= i < m.notes.len() && (#[trigger] m.notes[i]).id == id
}

pub open spec fn tag_id_of(m: StoreModel, id: i64) -> bool {
    exists|i: int| 0 <= i < m.tags.len() && (#[trigger] m.tags[i]).id == id
}

/// The referential invariants of the store.
pub open spec fn wf(m: StoreModel) -> bool {
    // identifier counters stay positive
    &&& 0 < m.next_note_id
    &&& 0 < m.next_link_id
    &&& 0 < m.next_tag_id
    // notes: unique ids, unique paths, ids below the counter
    &&& forall|i: int, j: int|
        0 <= i < j < m.notes.len() ==> (#[trigger] m.notes[i]).id != (#[trigger] m.notes[j]).id
    &&& forall|i: int, j: int|
        0 <= i < j < m.notes.len() ==> (#[trigger] m.notes[i]).path != (
        #[trigger] m.notes[j]).path
    &&& forall|i: int| 0 <= i < m.notes.len() ==> 0 < (#[trigger] m.notes[i]).id
    &&& forall|i: int| 0 <= i < m.notes.len() ==> (#[trigger] m.notes[i]).id < m.next_note_id
    // links: unique ids below the counter, sources exist, resolved
    // targets exist, (source, target, line) unique
    &&& forall|i: int, j: int|
        0 <= i < j < m.links.len() ==> (#[trigger] m.links[i]).id != (#[trigger] m.links[j]).id
    &&& forall|i: int| 0 <= i < m.links.len() ==> 0 < (#[trigger] m.links[i]).id
    &&& forall|i: int| 0 <= i < m.links.len() ==> (#[trigger] m.links[i]).id < m.next_link_id
    &&& forall|i: int| 0 <= i < m.links.len() ==> note_id_of(m, (#[trigger] m.links[i]).source_id)
    &&& forall|i: int|
        0 <= i < m.links.len() ==> match (#[trigger] m.links[i]).target_id {
            Some(t) => note_id_of(m, t),
            None => true,
        }
    &&& forall|i: int, j: int|
        0 <= i < j < m.links.len() ==> !((#[trigger] m.links[i]).source_id == (
        #[trigger] m.links[j]).source_id && m.links[i].target_path == m.links[j].target_path
            && m.links[i].line_number == m.links[j].line_number)
    // tags: unique ids below the counter, names unique after folding
    &&& forall|i: int, j: int|
        0 <= i < j < m.tags.len() ==> (#[trigger] m.tags[i]).id != (#[trigger] m.tags[j]).id
    &&& forall|i: int| 0 <= i < m.tags.len() ==> 0 < (#[trigger] m.tags[i]).id
    &&& forall|i: int| 0 <= i < m.tags.len() ==> (#[trigger] m.tags[i]).id < m.next_tag_id
    &&& forall|i: int, j: int|
        0 <= i < j < m.tags.len() ==> fold((#[trigger] m.tags[i]).name) != fold(
            (#[trigger] m.tags[j]).name,
        )
    // note-tag associations: pairs unique, both ends exist
    &&& forall|i: int, j: int|
        0 <= i < j < m.note_tags.len() ==> #[trigger] m.note_tags[i] != #[trigger] m.note_tags[j]
    &&& forall|i: int| 0 <= i < m.note_tags.len() ==> note_id_of(m, (#[trigger] m.note_tags[i]).0)
    &&& forall|i: int| 0 <= i < m.note_tags.len() ==> tag_id_of(m, (#[trigger] m.note_tags[i]).1)
    // shadow records: at most one per note identifier
    &&& forall|i: int, j: int|
        0 <= i < j < m.fts.len() ==> (#[trigger] m.fts[i]).note_id != (
        #[trigger] m.fts[j]).note_id
}

// ---------------------------------------------------------------------
// Ordering of result rows
// ---------------------------------------------------------------------

/// A row type with a strict "comes before" relation; `sort_rows` orders
/// by it.
pub trait SortOrd: Sized {
    /// The strict order: `self` must stand before `other`.
    spec fn before(self, other: Self) -> bool;

    /// The order is asymmetric.
    proof fn lemma_asym(a: Self, b: Self)
        ensures
            !(a.before(b) && b.before(a)),
    ;

    /// Executable test of `before`.
    fn lt(&self, other: &Self) -> (r: bool)
        ensures
            r == self.before(*other),
    ;
}

/// No element stands strictly before its predecessor.
pub open spec fn sorted_rows<T: SortOrd>(s: Seq<T>) -> bool {
    forall|i: int| 0 <= i < s.len() - 1 ==> !((#[trigger] s[i + 1]).before(s[i]))
}

/// Inserting an element anywhere adds it to the multiset.
pub proof fn lemma_insert_multiset<T>(s: Seq<T>, i: int, x: T)
    requires
        0 <= i <= s.len(),
    ensures
        s.insert(i, x).to_multiset() == s.to_multiset().insert(x),
{
    broadcast use vstd::seq_lib::group_to_multiset_ensures;

    let a = s.subrange(0, i);
    let b = s.subrange(i, s.len() as int);
    assert(s.insert(i, x) =~= a.push(x) + b);
    vstd::seq_lib::lemma_multiset_commutative(a.push(x), b);
    assert(s =~= a + b);
    vstd::seq_lib::lemma_multiset_commutative(a, b);
    assert(s.insert(i, x).to_multiset() =~= s.to_multiset().insert(x));
}

/// Sort rows by their `before` order: the result is a permutation of
/// the input with no element strictly before its predecessor.
pub fn sort_rows<T: SortOrd>(v: Vec<T>) -> (r: Vec<T>)
    ensures
        r@.to_multiset() == v@.to_multiset(),
        sorted_rows(r@),
{
    broadcast use vstd::seq_lib::group_to_multiset_ensures;

    let mut src = v;
    let mut out: Vec<T> = Vec::new();
    proof {
        assert(out@.to_multiset().add(src@.to_multiset()) =~= v@.to_multiset());
    }
    while src.len() > 0
        invariant
            sorted_rows(out@),
            out@.to_multiset().add(src@.to_multiset()) == v@.to_multiset(),
        decreases src@.len(),
    {
        let ghost src_pre = src@;
        let x = match src.pop() {
            Some(x) => x,
            None => {
                proof {
                    assert(false);
                }
                return out;
            },
        };
        proof {
            broadcast use vstd::seq_lib::group_to_multiset_ensures;

            assert(src_pre.remove(src_pre.len() - 1) =~= src@);
            assert(src_pre.to_multiset().remove(x) =~= src@.to_multiset());
            assert(src_pre.to_multiset().contains(x));
        }
        let mut j: usize = 0;
        while j < out.len() && !x.lt(&out[j])
            invariant
                0 <= j <= out@.len(),
                forall|k: int| 0 <= k < j ==> !(x.before(#[trigger] out@[k])),
            decreases out@.len() - j,
        {
            j = j + 1;
        }
        let ghost pre = out@;
        let ghost gj = j as int;
        let ghost gx = x;
        out.insert(j, x);
        proof {
            broadcast use vstd::seq_lib::group_to_multiset_ensures;

            lemma_insert_multiset(pre, gj, gx);
            pre.insert_ensures(gj, gx);
            assert(out@.to_multiset().add(src@.to_multiset()) =~= v@.to_multiset());
            assert forall|i: int| 0 <= i < out@.len() - 1 implies !((#[trigger] out@[i
                + 1]).before(out@[i])) by {
                if i + 1 < gj {
                    assert(out@[i] == pre[i]);
                    assert(out@[i + 1] == pre[i + 1]);
                } else if i + 1 == gj {
                    assert(out@[i] == pre[i]);
                    assert(out@[i + 1] == gx);
                    assert(!gx.before(pre[gj - 1]));
                } else if i == gj {
                    assert(out@[i] == gx);
                    assert(out@[i + 1] == pre[gj]);
                    assert(gx.before(pre[gj]));
                    T::lemma_asym(gx, pre[gj]);
                } else {
                    assert(out@[i] == pre[i - 1]);
                    assert(out@[i + 1] == pre[i]);
                }
            }
        }
    }
    proof {
        broadcast use vstd::seq_lib::group_to_multiset_ensures;

        assert(src@.to_multiset().len() == 0);
        assert(out@.to_multiset().add(src@.to_multiset()) =~= out@.to_multiset());
    }
    out
}

/// A multiset equality carries over an elementwise map.
pub proof fn lemma_multiset_map<T, U>(a: Seq<T>, b: Seq<T>, f: spec_fn(T) -> U)
    requires
        b.to_multiset() == a.to_multiset(),
    ensures
        b.map_values(f).to_multiset() == a.map_values(f).to_multiset(),
    decreases a.len(),
{
    broadcast use vstd::seq_lib::group_to_multiset_ensures;

    if a.len() == 0 {
        assert(b.to_multiset().len() == 0);
        assert(b.len() == 0);
        assert(a.map_values(f) =~= Seq::<U>::empty());
        assert(b.map_values(f) =~= Seq::<U>::empty());
    } else {
        let x = a.last();
        let a1 = a.drop_last();
        assert(a =~= a1.push(x));
        assert(a.to_multiset().contains(x)) by {
            assert(a.to_multiset() =~= a1.to_multiset().insert(x));
        }
        assert(b.to_multiset().contains(x));
        assert(b.contains(x));
        let bi = choose|bi: int| 0 <= bi < b.len() && b[bi] == x;
        let b1 = b.remove(bi);
        assert(b1.to_multiset() =~= b.to_multiset().remove(x));
        assert(a1.to_multiset() =~= a.to_multiset().remove(x)) by {
            assert(a.to_multiset() =~= a1.to_multiset().insert(x));
        }
        lemma_multiset_map(a1, b1, f);
        assert(a.map_values(f) =~= a1.map_values(f).push(f(x)));
        assert(b.map_values(f).remove(bi) =~= b1.map_values(f));
        assert(b.map_values(f).to_multiset() =~= b1.map_values(f).to_multiset().insert(f(x))) by {
            assert(b.map_values(f)[bi] == f(x));
            assert(b.map_values(f).remove(bi).to_multiset() =~= b.map_values(
                f,
            ).to_multiset().remove(f(x)));
            assert(b.map_values(f).to_multiset().contains(f(x)));
        }
        assert(a.map_values(f).to_multiset() =~= a1.map_values(f).to_multiset().insert(f(x)));
    }
}

/// A property of every element of `a` is a property of every element of
/// any permutation of `a`.
pub proof fn lemma_multiset_all<T>(a: Seq<T>, b: Seq<T>, p: spec_fn(T) -> bool)
    requires
        b.to_multiset() == a.to_multiset(),
        forall|i: int| 0 <= i < a.len() ==> p(a[i]),
    ensures
        forall|i: int| 0 <= i < b.len() ==> p(b[i]),
{
    broadcast use vstd::seq_lib::group_to_multiset_ensures;

    assert forall|i: int| 0 <= i < b.len() implies p(b[i]) by {
        assert(b.to_multiset().contains(b[i])) by {
            assert(b.to_multiset().count(b[i]) > 0);
        }
        assert(a.to_multiset().contains(b[i]));
        assert(a.contains(b[i]));
        let w = choose|w: int| 0 <= w < a.len() && a[w] == b[i];
        assert(p(a[w]));
    }
}

// ---------------------------------------------------------------------
// Construction
// ---------------------------------------------------------------------

/// The empty store model.
pub open spec fn empty_store() -> StoreModel {
    StoreModel {
        notes: Seq::empty(),
        links: Seq::empty(),
        tags: Seq::empty(),
        note_tags: Seq::empty(),
        fts: Seq::empty(),
        next_note_id: 1,
        next_link_id: 1,
        next_tag_id: 1,
    }
}

impl Store {
    /// An empty store; identifiers start at 1.
    pub fn new() -> (s: Store)
        ensures
            s@ == empty_store(),
            wf(s@),
    {
        let s = Store {
            notes: Vec::new(),
            links: Vec::new(),
            tags: Vec::new(),
            note_tags: Vec::new(),
            fts: Vec::new(),
            next_note_id: 1,
            next_link_id: 1,
            next_tag_id: 1,
        };
        proof {
            assert(s@ =~= empty_store());
        }
        s
    }
}

/// Errors the store can raise when it rejects a write.
#[derive(Debug)]
pub enum StoreError {
    /// No further identifier can be allocated.
    IdsExhausted,
    /// A write referenced a row that is not present.
    MissingRow,
    /// A write would duplicate a unique path.
    DuplicatePath,
}

} // verus!
