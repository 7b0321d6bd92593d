//! Synchronization state and conflict handling: the status summary a
//! sync backend reports, parsing of conflict markers out of a file's
//! text, and the write plan for resolving a conflict. Talking to the
//! version-control backend itself is the caller's business.

use vstd::prelude::*;
use crate::text::{spec_lines, split_lines, chars_of, string_from_chars, view_opt_string, copy_range};
use crate::parser::starts_with;

verus! {

// ---------------------------------------------------------------------
// Status
// ---------------------------------------------------------------------

/// The synchronization status of a vault.
pub struct SyncStatus {
    /// Whether the vault has a repository.
    pub initialized: bool,
    /// The configured remote, if any.
    pub remote_url: Option<String>,
    /// The current branch name.
    pub branch: String,
    /// Commits ahead of the remote.
    pub ahead: usize,
    /// Commits behind the remote.
    pub behind: usize,
    /// Files with merge conflicts.
    pub conflicts: Vec<String>,
    /// Last successful sync, ISO-8601, if known.
    pub last_sync: Option<String>,
    /// Whether there are uncommitted changes.
    pub dirty: bool,
}

impl Default for SyncStatus {
    /// The status of a vault with no repository: clean, on `main`,
    /// with nothing ahead, behind or conflicting.
    fn default() -> (r: SyncStatus)
        ensures
            !r.initialized,
            r.remote_url is None,
            r.branch@ == seq!['m', 'a', 'i', 'n'],
            r.ahead == 0,
            r.behind == 0,
            r.conflicts@.len() == 0,
            r.last_sync is None,
            !r.dirty,
    {
        let branch = String::from_str("main");
        proof {
            reveal_strlit("main");
        }
        SyncStatus {
            initialized: false,
            remote_url: None,
            branch,
            ahead: 0,
            behind: 0,
            conflicts: Vec::new(),
            last_sync: None,
            dirty: false,
        }
    }
}

impl SyncStatus {
    /// The status for a vault without a repository.
    pub fn uninitialized() -> (r: SyncStatus)
        ensures
            !r.initialized,
            r.remote_url is None,
            r.branch@ == seq!['m', 'a', 'i', 'n'],
            r.ahead == 0,
            r.behind == 0,
            r.conflicts@.len() == 0,
            r.last_sync is None,
            !r.dirty,
    {
        SyncStatus::default()
    }

    /// Whether anything needs syncing: uncommitted changes, or commits
    /// ahead of or behind the remote.
    pub fn needs_sync(&self) -> (r: bool)
        ensures
            r == (self.dirty || self.ahead > 0 || self.behind > 0),
    {
        self.dirty || self.ahead > 0 || self.behind > 0
    }

    /// Whether any file still has a merge conflict to resolve.
    pub fn has_conflicts(&self) -> (r: bool)
        ensures
            r == (self.conflicts@.len() > 0),
    {
        self.conflicts.len() > 0
    }
}

/// The result of a push, pull or resolution.
pub struct SyncResult {
    pub success: bool,
    pub files_changed: Vec<String>,
    pub conflicts: Vec<String>,
    pub message: String,
}

// ---------------------------------------------------------------------
// Conflict markers
// ---------------------------------------------------------------------

/// The two sides of a conflicted file, and the common ancestor when
/// the markers carry one.
pub struct ConflictInfo {
    /// Vault-relative path of the conflicting file.
    pub path: String,
    /// The local (ours) content.
    pub local_content: String,
    /// The remote (theirs) content.
    pub remote_content: String,
    /// The common ancestor content, if present.
    pub base_content: Option<String>,
}

/// How a conflict is resolved.
pub enum ConflictResolution {
    /// Keep the local version, discard the remote one.
    KeepLocal,
    /// Keep the remote version, discard the local one.
    KeepRemote,
    /// Keep both versions as separate notes.
    KeepBoth,
}

pub open spec fn marker_of(c: char) -> Seq<char> {
    seq![c, c, c, c, c, c, c]
}

/// Scan the first `i` lines for conflict markers, keeping the text of
/// the local, base and remote sections (each kept line with a trailing
/// newline) and the section the scan stands in: 0 before the markers,
/// 1 local, 2 base, 3 remote, 4 after the closing marker.
pub open spec fn conflict_scan(lines: Seq<Seq<char>>, i: int) -> (
    Seq<char>,
    Seq<char>,
    Seq<char>,
    int,
)
    decreases i,
{
    if i <= 0 {
        (Seq::empty(), Seq::empty(), Seq::empty(), 0)
    } else {
        let prev = conflict_scan(lines, i - 1);
        let line = lines[i - 1];
        if starts_with(line, marker_of('<')) {
            (prev.0, prev.1, prev.2, 1)
        } else if starts_with(line, marker_of('|')) {
            (prev.0, prev.1, prev.2, 2)
        } else if starts_with(line, marker_of('=')) {
            (prev.0, prev.1, prev.2, 3)
        } else if starts_with(line, marker_of('>')) {
            (prev.0, prev.1, prev.2, 4)
        } else if prev.3 == 1 {
            (prev.0 + line + seq!['\n'], prev.1, prev.2, 1)
        } else if prev.3 == 2 {
            (prev.0, prev.1 + line + seq!['\n'], prev.2, 2)
        } else if prev.3 == 3 {
            (prev.0, prev.1, prev.2 + line + seq!['\n'], 3)
        } else {
            prev
        }
    }
}

/// The parsed conflict of a file's text: the local and remote sides
/// and the optional base, or `None` when the text holds no complete
/// marker block.
pub open spec fn spec_parse_conflict(content: Seq<char>) -> Option<
    (Seq<char>, Seq<char>, Option<Seq<char>>),
> {
    let lines = spec_lines(content);
    let r = conflict_scan(lines, lines.len() as int);
    if r.3 == 4 {
        Some(
            (
                r.0,
                r.2,
                if r.1.len() == 0 {
                    None
                } else {
                    Some(r.1)
                },
            ),
        )
    } else {
        None
    }
}

/// Does the line start with seven of the given character?
fn has_marker(line: &Vec<char>, c: char) -> (r: bool)
    ensures
        r == starts_with(line@, marker_of(c)),
{
    let r = line.len() >= 7 && line[0] == c && line[1] == c && line[2] == c && line[3] == c
        && line[4] == c && line[5] == c && line[6] == c;
    proof {
        if r {
            assert(line@.subrange(0, 7) =~= marker_of(c));
        } else {
            if line@.len() >= 7 && line@.subrange(0, 7) == marker_of(c) {
                assert(line@[0] == line@.subrange(0, 7)[0]);
                assert(line@[1] == line@.subrange(0, 7)[1]);
                assert(line@[2] == line@.subrange(0, 7)[2]);
                assert(line@[3] == line@.subrange(0, 7)[3]);
                assert(line@[4] == line@.subrange(0, 7)[4]);
                assert(line@[5] == line@.subrange(0, 7)[5]);
                assert(line@[6] == line@.subrange(0, 7)[6]);
            }
        }
    }
    r
}

/// Parse conflict markers out of a file's text: `Some((local, remote,
/// base))` when a complete `<<<<<<<` … `=======` … `>>>>>>>` block is
/// present (with the base section of `|||||||` markers when present),
/// else `None`.
pub fn parse_conflict_markers(content: &str) -> (r: Option<(String, String, Option<String>)>)
    ensures
        ({
            match r {
                Some(t) => spec_parse_conflict(content@) == Some(
                    (t.0@, t.1@, view_opt_string(t.2)),
                ),
                None => spec_parse_conflict(content@) is None,
            }
        }),
{
    let chars = chars_of(content);
    let lines = split_lines(&chars);
    let ghost lv = spec_lines(content@);
    let n = lines.len();
    let mut local: Vec<char> = Vec::new();
    let mut base: Vec<char> = Vec::new();
    let mut remote: Vec<char> = Vec::new();
    let mut section: u8 = 0;
    let mut i: usize = 0;
    while i < n
        invariant
            0 <= i <= n,
            n == lines@.len(),
            lines@.map_values(|l: Vec<char>| l@) == lv,
            lv.len() == n as int,
            (local@, base@, remote@, section as int) == conflict_scan(lv, i as int),
            section <= 4,
        decreases n - i,
    {
        proof {
            assert(lv[i as int] == lines@[i as int]@);
        }
        let line = &lines[i];
        if has_marker(line, '<') {
            section = 1;
        } else if has_marker(line, '|') {
            section = 2;
        } else if has_marker(line, '=') {
            section = 3;
        } else if has_marker(line, '>') {
            section = 4;
        } else if section == 1 {
            let mut piece = copy_range(line, 0, line.len());
            local.append(&mut piece);
            local.push('\n');
            proof {
                assert(local@ =~= conflict_scan(lv, i + 1).0);
            }
        } else if section == 2 {
            let mut piece = copy_range(line, 0, line.len());
            base.append(&mut piece);
            base.push('\n');
            proof {
                assert(base@ =~= conflict_scan(lv, i + 1).1);
            }
        } else if section == 3 {
            let mut piece = copy_range(line, 0, line.len());
            remote.append(&mut piece);
            remote.push('\n');
            proof {
                assert(remote@ =~= conflict_scan(lv, i + 1).2);
            }
        }
        i = i + 1;
    }
    if section == 4 {
        let base_opt = if base.len() == 0 {
            None
        } else {
            Some(string_from_chars(&base))
        };
        Some((string_from_chars(&local), string_from_chars(&remote), base_opt))
    } else {
        None
    }
}

// ---------------------------------------------------------------------
// Resolution planning
// ---------------------------------------------------------------------

/// One file to write when carrying out a resolution.
pub struct FileWrite {
    pub path: String,
    pub content: String,
}

/// What carrying out a resolution means on disk: files to write, a
/// file to remove, and the vault-relative paths of the files that then
/// hold the kept content. The caller performs the writes.
pub struct ResolutionPlan {
    pub writes: Vec<FileWrite>,
    pub remove: Option<String>,
    pub created: Vec<String>,
}

/// The leading directories of a relative path, separator included;
/// empty for a bare file name.
pub open spec fn parent_of(rel: Seq<char>) -> Seq<char> {
    rel.subrange(0, crate::watcher::last_sep(rel, rel.len() - 1) + 1)
}

/// The file name of a relative path.
pub open spec fn name_of(rel: Seq<char>) -> Seq<char> {
    rel.subrange(crate::watcher::last_sep(rel, rel.len() - 1) + 1, rel.len() as int)
}

/// The name before its extension; a name without one is its own stem,
/// and an empty name falls back to `note`.
pub open spec fn stem_of(rel: Seq<char>) -> Seq<char> {
    let name = name_of(rel);
    let d = crate::watcher::last_dot(name, name.len() - 1);
    if name.len() == 0 {
        seq!['n', 'o', 't', 'e']
    } else if d > 0 {
        name.subrange(0, d)
    } else {
        name
    }
}

/// The extension after the last dot; a name without one falls back to
/// the note extension.
pub open spec fn ext_of(rel: Seq<char>) -> Seq<char> {
    let name = name_of(rel);
    let d = crate::watcher::last_dot(name, name.len() - 1);
    if d > 0 {
        name.subrange(d + 1, name.len() as int)
    } else {
        seq!['m', 'd']
    }
}

/// Where the local version goes when both sides are kept.
pub open spec fn keep_both_local(rel: Seq<char>) -> Seq<char> {
    parent_of(rel) + stem_of(rel) + seq!['-', 'l', 'o', 'c', 'a', 'l', '.'] + ext_of(rel)
}

/// Where the remote version goes when both sides are kept.
pub open spec fn keep_both_remote(rel: Seq<char>) -> Seq<char> {
    parent_of(rel) + stem_of(rel) + seq!['-', 'r', 'e', 'm', 'o', 't', 'e', '.'] + ext_of(rel)
}

/// Find the last separator and the last dot after it, as executable
/// values.
fn split_points(rel: &Vec<char>) -> (r: (usize, usize))
    ensures
        ({
            let sep = crate::watcher::last_sep(rel@, rel@.len() - 1);
            let name = name_of(rel@);
            let d = crate::watcher::last_dot(name, name.len() - 1);
            &&& r.0 as int == sep + 1
            &&& r.1 as int == (sep + 1) + (if d >= 0 {
                d
            } else {
                name.len() as int
            })
            &&& -1 <= d < name.len()
            &&& r.0 <= r.1 <= rel@.len()
        }),
{
    let n = rel.len();
    let mut s: usize = n;
    let mut k: usize = n;
    while k > 0 && s == n
        invariant
            0 <= k <= n,
            n == rel@.len(),
            forall|j: int| k <= j < n ==> rel@[j] != '/',
            s == n || (k >= 1 && s == k - 1 && s < n && rel@[s as int] == '/'),
        decreases k, (if s == n { 1int } else { 0int }),
    {
        if rel[k - 1] == '/' {
            s = k - 1;
        } else {
            k = k - 1;
        }
    }
    let ghost gsep: int = if s == n {
        -1
    } else {
        s as int
    };
    proof {
        if n > 0 {
            crate::watcher::lemma_last_sep_char(rel@, n - 1, gsep);
        }
    }
    let name_start = if s == n {
        0
    } else {
        s + 1
    };
    let ghost name = name_of(rel@);
    let mut d: usize = n;
    let mut k2: usize = n;
    while k2 > name_start && d == n
        invariant
            name_start <= k2 <= n,
            n == rel@.len(),
            name_start as int == gsep + 1,
            0 <= name_start <= n,
            forall|j: int| k2 <= j < n ==> rel@[j] != '.',
            d == n || (k2 >= 1 && d == k2 - 1 && d < n && name_start <= d && rel@[d as int]
                == '.'),
        decreases k2, (if d == n { 1int } else { 0int }),
    {
        if rel[k2 - 1] == '.' {
            d = k2 - 1;
        } else {
            k2 = k2 - 1;
        }
    }
    proof {
        assert(forall|j: int| 0 <= j < name.len() ==> name[j] == rel@[j + gsep + 1]);
        if d == n {
            crate::watcher::lemma_last_dot_char(name, name.len() - 1, -1);
        } else {
            crate::watcher::lemma_last_dot_char(name, name.len() - 1, d as int - (gsep + 1));
        }
        crate::watcher::lemma_last_dot_bounds(name, name.len() - 1);
    }
    if d == n {
        (name_start, n)
    } else {
        (name_start, d)
    }
}

/// Plan the writes that carry out a resolution: keeping one side
/// rewrites the conflicted file with it; keeping both writes the local
/// and remote versions as `stem-local.ext` and `stem-remote.ext`
/// beside it and removes the original.
#[verifier::rlimit(100)]
pub fn plan_resolution(
    relative_path: &str,
    resolution: &ConflictResolution,
    local: &str,
    remote: &str,
) -> (r: ResolutionPlan)
    ensures
        ({
            match resolution {
                ConflictResolution::KeepLocal => {
                    &&& r.writes@.len() == 1
                    &&& r.writes@[0].path@ == relative_path@
                    &&& r.writes@[0].content@ == local@
                    &&& r.remove is None
                    &&& r.created@.len() == 1 && r.created@[0]@ == relative_path@
                },
                ConflictResolution::KeepRemote => {
                    &&& r.writes@.len() == 1
                    &&& r.writes@[0].path@ == relative_path@
                    &&& r.writes@[0].content@ == remote@
                    &&& r.remove is None
                    &&& r.created@.len() == 1 && r.created@[0]@ == relative_path@
                },
                ConflictResolution::KeepBoth => {
                    &&& r.writes@.len() == 2
                    &&& r.writes@[0].path@ == keep_both_local(relative_path@)
                    &&& r.writes@[0].content@ == local@
                    &&& r.writes@[1].path@ == keep_both_remote(relative_path@)
                    &&& r.writes@[1].content@ == remote@
                    &&& (match r.remove {
                        Some(p) => p@ == relative_path@,
                        None => false,
                    })
                    &&& r.created@.len() == 2
                    &&& r.created@[0]@ == keep_both_local(relative_path@)
                    &&& r.created@[1]@ == keep_both_remote(relative_path@)
                },
            }
        }),
{
    match resolution {
        ConflictResolution::KeepLocal => {
            let mut writes: Vec<FileWrite> = Vec::new();
            writes.push(
                FileWrite {
                    path: String::from_str(relative_path),
                    content: String::from_str(local),
                },
            );
            let mut created: Vec<String> = Vec::new();
            created.push(String::from_str(relative_path));
            ResolutionPlan { writes, remove: None, created }
        },
        ConflictResolution::KeepRemote => {
            let mut writes: Vec<FileWrite> = Vec::new();
            writes.push(
                FileWrite {
                    path: String::from_str(relative_path),
                    content: String::from_str(remote),
                },
            );
            let mut created: Vec<String> = Vec::new();
            created.push(String::from_str(relative_path));
            ResolutionPlan { writes, remove: None, created }
        },
        ConflictResolution::KeepBoth => {
            let rc = chars_of(relative_path);
            let (name_start, dot) = split_points(&rc);
            let ghost rel = relative_path@;
            // parent, stem, extension
            let parent = copy_range(&rc, 0, name_start);
            let stem: Vec<char>;
            if name_start == rc.len() {
                let mut v: Vec<char> = Vec::new();
                v.push('n');
                v.push('o');
                v.push('t');
                v.push('e');
                proof {
                    assert(v@ =~= stem_of(rel));
                }
                stem = v;
            } else if dot > name_start {
                stem = copy_range(&rc, name_start, dot);
                proof {
                    assert(stem@ =~= stem_of(rel));
                }
            } else {
                stem = copy_range(&rc, name_start, rc.len());
                proof {
                    assert(stem@ =~= stem_of(rel));
                }
            }
            let ext: Vec<char>;
            if dot > name_start && dot < rc.len() {
                ext = copy_range(&rc, dot + 1, rc.len());
                proof {
                    assert(ext@ =~= ext_of(rel));
                }
            } else {
                let mut v: Vec<char> = Vec::new();
                v.push('m');
                v.push('d');
                proof {
                    assert(v@ =~= ext_of(rel));
                }
                ext = v;
            }
            // assemble the two paths
            let mut lp = copy_range(&parent, 0, parent.len());
            let mut piece = copy_range(&stem, 0, stem.len());
            lp.append(&mut piece);
            lp.push('-');
            lp.push('l');
            lp.push('o');
            lp.push('c');
            lp.push('a');
            lp.push('l');
            lp.push('.');
            let mut piece = copy_range(&ext, 0, ext.len());
            lp.append(&mut piece);
            proof {
                assert(parent@ =~= parent_of(rel));
                assert(lp@ =~= keep_both_local(rel));
            }
            let mut rp = copy_range(&parent, 0, parent.len());
            let mut piece = copy_range(&stem, 0, stem.len());
            rp.append(&mut piece);
            rp.push('-');
            rp.push('r');
            rp.push('e');
            rp.push('m');
            rp.push('o');
            rp.push('t');
            rp.push('e');
            rp.push('.');
            let mut piece = copy_range(&ext, 0, ext.len());
            rp.append(&mut piece);
            proof {
                assert(rp@ =~= keep_both_remote(rel));
            }
            let local_path = string_from_chars(&lp);
            let remote_path = string_from_chars(&rp);
            let mut writes: Vec<FileWrite> = Vec::new();
            writes.push(
                FileWrite {
                    path: String::from_str(local_path.as_str()),
                    content: String::from_str(local),
                },
            );
            writes.push(
                FileWrite {
                    path: String::from_str(remote_path.as_str()),
                    content: String::from_str(remote),
                },
            );
            let mut created: Vec<String> = Vec::new();
            created.push(local_path);
            created.push(remote_path);
            ResolutionPlan {
                writes,
                remove: Some(String::from_str(relative_path)),
                created,
            }
        },
    }
}

} // verus!
