//! The decision side of the file-watch boundary: which paths count as
//! note files, which lie in hidden directories, and how one raw
//! change report becomes the events the indexer reacts to. Watching
//! the file system itself is the caller's business; it hands in each
//! change's kind and paths as plain values.

use vstd::prelude::*;
use crate::text::{fold, fold_chars, chars_of, chars_eq};
use crate::parser::starts_with;

verus! {

/// A change to one note file, as the indexer consumes it.
pub enum VaultEvent {
    Created(String),
    Modified(String),
    Deleted(String),
    Renamed { from: String, to: String },
}

#[verifier::ext_equal]
pub enum VaultEventR {
    Created(Seq<char>),
    Modified(Seq<char>),
    Deleted(Seq<char>),
    Renamed { from: Seq<char>, to: Seq<char> },
}

impl View for VaultEvent {
    type V = VaultEventR;

    open spec fn view(&self) -> VaultEventR {
        match self {
            VaultEvent::Created(p) => VaultEventR::Created(p@),
            VaultEvent::Modified(p) => VaultEventR::Modified(p@),
            VaultEvent::Deleted(p) => VaultEventR::Deleted(p@),
            VaultEvent::Renamed { from, to } => VaultEventR::Renamed { from: from@, to: to@ },
        }
    }
}

/// The raw change kinds the watcher reacts to.
pub enum FsChangeKind {
    /// A file was created.
    CreateFile,
    /// A file's data changed.
    ModifyData,
    /// A file changed in an unspecified way.
    ModifyAny,
    /// A file was removed.
    RemoveFile,
    /// A rename reported with both ends.
    RenameBoth,
    /// A rename reported with its old path only.
    RenameFrom,
    /// A rename reported with its new path only.
    RenameTo,
    /// Anything else; ignored.
    Other,
}

/// Index of the last `'/'` at or before `i`, or `-1`.
pub open spec fn last_sep(p: Seq<char>, i: int) -> int
    decreases i + 1,
{
    if i < 0 || i >= p.len() {
        -1
    } else if p[i] == '/' {
        i
    } else {
        last_sep(p, i - 1)
    }
}

/// Index of the last `'.'` at or before `i`, or `-1`.
pub open spec fn last_dot(p: Seq<char>, i: int) -> int
    decreases i + 1,
{
    if i < 0 || i >= p.len() {
        -1
    } else if p[i] == '.' {
        i
    } else {
        last_dot(p, i - 1)
    }
}

/// Whether a path names a note file: its last component carries the
/// note extension, compared case-insensitively, with a non-empty stem.
pub open spec fn spec_is_markdown(p: Seq<char>) -> bool {
    let name = p.subrange(last_sep(p, p.len() - 1) + 1, p.len() as int);
    let d = last_dot(name, name.len() - 1);
    d > 0 && fold(name.subrange(d + 1, name.len() as int)) == seq!['m', 'd']
}

/// Whether the vault root is a prefix of the path up to a component
/// boundary: the path is the root itself, or continues with a
/// separator, or the root already ends with one.
pub open spec fn under_vault(p: Seq<char>, vault: Seq<char>) -> bool {
    starts_with(p, vault) && (p.len() == vault.len() || p[vault.len() as int] == '/' || (
    vault.len() > 0 && vault[vault.len() - 1] == '/'))
}

/// Whether a path under the vault root lies behind a hidden (dotted)
/// component: the root must match up to a component boundary, and a
/// component is hidden when it begins with a dot.
pub open spec fn spec_is_hidden(p: Seq<char>, vault: Seq<char>) -> bool {
    under_vault(p, vault) && exists|i: int|
        vault.len() <= i < p.len() && #[trigger] p[i] == '.' && (i == vault.len() || p[i - 1]
            == '/')
}

pub(crate) proof fn lemma_last_sep_char(p: Seq<char>, i: int, m: int)
    requires
        -1 <= m <= i < p.len(),
        forall|k: int| m < k <= i ==> p[k] != '/',
        m >= 0 ==> p[m] == '/',
    ensures
        last_sep(p, i) == m,
    decreases i - m,
{
    if i > m {
        lemma_last_sep_char(p, i - 1, m);
    }
}

pub(crate) proof fn lemma_last_dot_char(p: Seq<char>, i: int, m: int)
    requires
        -1 <= m <= i < p.len(),
        forall|k: int| m < k <= i ==> p[k] != '.',
        m >= 0 ==> p[m] == '.',
    ensures
        last_dot(p, i) == m,
    decreases i - m,
{
    if i > m {
        lemma_last_dot_char(p, i - 1, m);
    }
}

/// The last-dot scan stays within bounds.
pub(crate) proof fn lemma_last_dot_bounds(p: Seq<char>, i: int)
    requires
        -1 <= i,
    ensures
        -1 <= last_dot(p, i),
        last_dot(p, i) <= i,
        last_dot(p, i) < p.len(),
    decreases i + 1,
{
    if !(i < 0 || i >= p.len()) && p[i] != '.' {
        lemma_last_dot_bounds(p, i - 1);
    }
}

/// Whether a path names a note file.
pub fn is_markdown_path(path: &str) -> (r: bool)
    ensures
        r == spec_is_markdown(path@),
{
    let chars = chars_of(path);
    let n = chars.len();
    if n == 0 {
        proof {
            assert(!spec_is_markdown(path@));
        }
        return false;
    }
    // find the last separator
    let mut s: usize = n;
    let mut k: usize = n;
    while k > 0 && s == n
        invariant
            0 <= k <= n,
            n == chars@.len(),
            chars@ == path@,
            forall|j: int| k <= j < n ==> chars@[j] != '/',
            s == n || (k >= 1 && s == k - 1 && s < n && chars@[s as int] == '/'),
        decreases k, (if s == n { 1int } else { 0int }),
    {
        if chars[k - 1] == '/' {
            s = k - 1;
        } else {
            k = k - 1;
        }
    }
    let ghost gsep: int = if s == n {
        -1
    } else {
        s as int
    };
    proof {
        lemma_last_sep_char(path@, n - 1, gsep);
    }
    let name_start = if s == n {
        0
    } else {
        s + 1
    };
    let ghost name = path@.subrange(gsep + 1, n as int);
    // find the last dot within the name
    let mut d: usize = n;
    let mut k2: usize = n;
    while k2 > name_start && d == n
        invariant
            name_start <= k2 <= n,
            n == chars@.len(),
            chars@ == path@,
            name_start as int == gsep + 1,
            0 <= name_start <= n,
            forall|j: int| k2 <= j < n ==> chars@[j] != '.',
            d == n || (k2 >= 1 && d == k2 - 1 && d < n && name_start <= d && chars@[d as int]
                == '.'),
        decreases k2, (if d == n { 1int } else { 0int }),
    {
        if chars[k2 - 1] == '.' {
            d = k2 - 1;
        } else {
            k2 = k2 - 1;
        }
    }
    let ghost gdot: int = if d == n {
        -1
    } else {
        d as int - (gsep + 1)
    };
    proof {
        assert(forall|j: int| 0 <= j < name.len() ==> name[j] == path@[j + gsep + 1]);
        if d == n {
            lemma_last_dot_char(name, name.len() - 1, -1);
        } else {
            lemma_last_dot_char(name, name.len() - 1, gdot);
        }
    }
    if d == n || d == name_start {
        proof {
            assert(!spec_is_markdown(path@));
        }
        return false;
    }
    // compare the extension, case-insensitively
    let ext = crate::text::copy_range(&chars, d + 1, n);
    let fext = fold_chars(&ext);
    let mut md: Vec<char> = Vec::new();
    md.push('m');
    md.push('d');
    proof {
        assert(md@ =~= seq!['m', 'd']);
        assert(ext@ =~= name.subrange(gdot + 1, name.len() as int));
    }
    let r = chars_eq(&fext, &md);
    proof {
        assert(r == spec_is_markdown(path@));
    }
    r
}

/// Whether a path lies behind a hidden component under the vault root.
pub fn is_hidden_path(path: &str, vault: &str) -> (r: bool)
    ensures
        r == spec_is_hidden(path@, vault@),
{
    let pc = chars_of(path);
    let vc = chars_of(vault);
    if !crate::parser::starts_with_exec(&pc, &vc) {
        return false;
    }
    let n = pc.len();
    let v = vc.len();
    if !(n == v || pc[v] == '/' || (v > 0 && vc[v - 1] == '/')) {
        proof {
            assert(!under_vault(path@, vault@));
        }
        return false;
    }
    let mut i: usize = v;
    while i < n
        invariant
            v <= i <= n,
            n == pc@.len(),
            v == vc@.len(),
            pc@ == path@,
            vc@ == vault@,
            under_vault(path@, vault@),
            forall|j: int|
                v <= j < i ==> !(#[trigger] path@[j] == '.' && (j == v as int || path@[j - 1]
                    == '/')),
        decreases n - i,
    {
        if pc[i] == '.' && (i == v || pc[i - 1] == '/') {
            proof {
                assert(path@[i as int] == '.' && (i as int == v as int || path@[i - 1] == '/'));
            }
            return true;
        }
        i = i + 1;
    }
    false
}

/// The events one raw change report yields: paths that are not note
/// files or lie behind hidden components are dropped, and the change
/// kind says what the rest mean. A two-ended rename needs both paths;
/// a half-reported rename degrades to a deletion or a creation.
pub open spec fn spec_classify(
    kind: FsChangeKind,
    kept: Seq<Seq<char>>,
) -> Seq<VaultEventR> {
    match kind {
        FsChangeKind::CreateFile => kept.map_values(|p: Seq<char>| VaultEventR::Created(p)),
        FsChangeKind::ModifyData => kept.map_values(|p: Seq<char>| VaultEventR::Modified(p)),
        FsChangeKind::ModifyAny => kept.map_values(|p: Seq<char>| VaultEventR::Modified(p)),
        FsChangeKind::RemoveFile => kept.map_values(|p: Seq<char>| VaultEventR::Deleted(p)),
        FsChangeKind::RenameBoth => if kept.len() >= 2 {
            seq![VaultEventR::Renamed { from: kept[0], to: kept[1] }]
        } else {
            Seq::empty()
        },
        FsChangeKind::RenameFrom => kept.map_values(|p: Seq<char>| VaultEventR::Deleted(p)),
        FsChangeKind::RenameTo => kept.map_values(|p: Seq<char>| VaultEventR::Created(p)),
        FsChangeKind::Other => Seq::empty(),
    }
}

/// The paths of a report that the indexer cares about, in order.
pub open spec fn kept_paths(paths: Seq<Seq<char>>, vault: Seq<char>, i: int) -> Seq<Seq<char>>
    decreases paths.len() - i,
{
    if i < 0 || i >= paths.len() {
        Seq::empty()
    } else {
        let rest = kept_paths(paths, vault, i + 1);
        if spec_is_markdown(paths[i]) && !spec_is_hidden(paths[i], vault) {
            seq![paths[i]] + rest
        } else {
            rest
        }
    }
}

/// Turn one raw change report into the events the indexer reacts to.
pub fn classify_event(kind: FsChangeKind, paths: &Vec<String>, vault: &str) -> (r: Vec<
    VaultEvent,
>)
    ensures
        r@.map_values(|e: VaultEvent| e@) == spec_classify(
            kind,
            kept_paths(paths@.map_values(|p: String| p@), vault@, 0),
        ),
{
    let ghost pv = paths@.map_values(|p: String| p@);
    let n = paths.len();
    let mut kept: Vec<String> = Vec::new();
    let mut i: usize = 0;
    while i < n
        invariant
            0 <= i <= n,
            n == paths@.len(),
            pv == paths@.map_values(|p: String| p@),
            pv.len() == n as int,
            kept@.map_values(|p: String| p@) + kept_paths(pv, vault@, i as int) =~= kept_paths(
                pv,
                vault@,
                0,
            ),
        decreases n - i,
    {
        let ghost pre = kept@.map_values(|p: String| p@);
        proof {
            assert(pv[i as int] == paths@[i as int]@);
        }
        if is_markdown_path(paths[i].as_str()) && !is_hidden_path(paths[i].as_str(), vault) {
            kept.push(String::from_str(paths[i].as_str()));
            proof {
                assert(kept@.map_values(|p: String| p@) =~= pre + seq![pv[i as int]]);
                assert(kept_paths(pv, vault@, i as int) == seq![pv[i as int]] + kept_paths(
                    pv,
                    vault@,
                    i + 1,
                ));
            }
        } else {
            proof {
                assert(kept_paths(pv, vault@, i as int) == kept_paths(pv, vault@, i + 1));
            }
        }
        i = i + 1;
    }
    proof {
        assert(kept_paths(pv, vault@, i as int) =~= Seq::<Seq<char>>::empty());
        assert(kept@.map_values(|p: String| p@) =~= kept_paths(pv, vault@, 0));
    }
    let ghost kv = kept_paths(pv, vault@, 0);
    let nk = kept.len();
    let mut r: Vec<VaultEvent> = Vec::new();
    match kind {
        FsChangeKind::RenameBoth => {
            if nk >= 2 {
                let from = String::from_str(kept[0].as_str());
                let to = String::from_str(kept[1].as_str());
                r.push(VaultEvent::Renamed { from, to });
                proof {
                    assert(kept@[0]@ == kv[0]);
                    assert(kept@[1]@ == kv[1]);
                    assert(r@.map_values(|e: VaultEvent| e@) =~= spec_classify(kind, kv));
                }
            } else {
                proof {
                    assert(r@.map_values(|e: VaultEvent| e@) =~= spec_classify(kind, kv));
                }
            }
        },
        FsChangeKind::Other => {
            proof {
                assert(r@.map_values(|e: VaultEvent| e@) =~= spec_classify(kind, kv));
            }
        },
        _ => {
            let mut j: usize = 0;
            while j < nk
                invariant
                    0 <= j <= nk,
                    nk == kept@.len(),
                    kv == kept_paths(pv, vault@, 0),
                    kept@.map_values(|p: String| p@) == kv,
                    !(kind is RenameBoth),
                    !(kind is Other),
                    r@.len() == j as int,
                    forall|x: int|
                        0 <= x < j ==> (#[trigger] r@[x])@ == spec_classify(kind, kv)[x],
                decreases nk - j,
            {
                proof {
                    assert(kept@[j as int]@ == kv[j as int]);
                }
                let p = String::from_str(kept[j].as_str());
                let ev = match kind {
                    FsChangeKind::CreateFile => VaultEvent::Created(p),
                    FsChangeKind::ModifyData => VaultEvent::Modified(p),
                    FsChangeKind::ModifyAny => VaultEvent::Modified(p),
                    FsChangeKind::RemoveFile => VaultEvent::Deleted(p),
                    FsChangeKind::RenameFrom => VaultEvent::Deleted(p),
                    FsChangeKind::RenameTo => VaultEvent::Created(p),
                    FsChangeKind::RenameBoth => VaultEvent::Created(p),
                    FsChangeKind::Other => VaultEvent::Created(p),
                };
                r.push(ev);
                j = j + 1;
            }
            proof {
                let lhs = r@.map_values(|e: VaultEvent| e@);
                let rhs = spec_classify(kind, kv);
                assert forall|x: int| 0 <= x < lhs.len() implies #[trigger] lhs[x]
                    == rhs[x] by {
                    assert(r@[x]@ == spec_classify(kind, kv)[x]);
                }
                assert(lhs =~= rhs);
            }
        },
    }
    r
}

} // verus!
