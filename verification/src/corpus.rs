//! The corpus: session files, project names, and session lookup.
//!
//! A session file is one conversation, discovered under a per-project
//! directory. The directory name encodes the project; sessions are looked up
//! by id, exactly or by prefix, with an explicit three-way outcome.

use vstd::prelude::*;

use crate::numfmt::{format_size_brief, spec_size_brief};
use crate::textops::{join_with, split_char, starts_with, str_eq, str_split_char, str_starts_with};

verus! {

/// One discovered session file.
#[derive(Clone)]
pub struct SessionFile {
    /// Filesystem path of the session's log file.
    pub path: String,
    /// The session id: the file's stem.
    pub session_id: String,
    /// The project the session belongs to.
    pub project_name: String,
    /// File size in bytes.
    pub size_bytes: u64,
}

impl SessionFile {
    /// The size as a short human-readable string.
    pub fn size_human(&self) -> (r: String)
        ensures
            r@ == spec_size_brief(self.size_bytes as int),
    {
        format_size_brief(self.size_bytes)
    }
}

/// The index of the first piece equal to `GitHub` at or after `k`, or the
/// piece count.
pub open spec fn first_github(parts: Seq<Seq<char>>, k: int) -> int
    decreases parts.len() - k,
{
    if k < 0 || k >= parts.len() {
        parts.len() as int
    } else if parts[k] == "GitHub"@ {
        k
    } else {
        first_github(parts, k + 1)
    }
}

/// A piece the fallback keeps: non-empty and not the user-directory marker.
pub open spec fn keepable(p: Seq<char>) -> bool {
    p.len() > 0 && p != "Users"@
}

/// The index of the last keepable piece, or -1.
pub open spec fn last_keepable(parts: Seq<Seq<char>>) -> int
    decreases parts.len(),
{
    if parts.len() == 0 {
        -1
    } else if keepable(parts.last()) {
        parts.len() - 1
    } else {
        last_keepable(parts.drop_last())
    }
}

/// The project name a directory name maps to: everything after a `GitHub`
/// path segment, joined with slashes; else the last meaningful segment; else
/// the directory name itself.
pub open spec fn spec_extract_project_name(dir: Seq<char>) -> Seq<char> {
    let parts = split_char(dir, '-');
    let g = first_github(parts, 0);
    if g < parts.len() {
        let after = parts.skip(g + 1);
        if after.len() == 0 {
            dir
        } else {
            join_with(after, "/"@)
        }
    } else {
        let l = last_keepable(parts);
        if l >= 0 {
            parts[l]
        } else {
            dir
        }
    }
}

/// If piece `k` is `GitHub` and no earlier piece from `lo` on is, `k` is the
/// first.
proof fn lemma_first_github(parts: Seq<Seq<char>>, lo: int, k: int)
    requires
        0 <= lo <= k < parts.len(),
        parts[k] == "GitHub"@,
        forall|j: int| lo <= j < k ==> parts[j] != "GitHub"@,
    ensures
        first_github(parts, lo) == k,
    decreases k - lo,
{
    if lo < k {
        lemma_first_github(parts, lo + 1, k);
    }
}

/// If no piece is `GitHub`, the first index is the piece count.
proof fn lemma_no_github(parts: Seq<Seq<char>>, lo: int)
    requires
        0 <= lo,
        forall|j: int| lo <= j < parts.len() ==> parts[j] != "GitHub"@,
    ensures
        first_github(parts, lo) == parts.len(),
    decreases parts.len() - lo,
{
    if lo < parts.len() {
        lemma_no_github(parts, lo + 1);
    }
}

/// If piece `k` is keepable and no later piece is, `k` is the last keepable.
proof fn lemma_last_keepable(parts: Seq<Seq<char>>, k: int)
    requires
        0 <= k < parts.len(),
        keepable(parts[k]),
        forall|j: int| k < j < parts.len() ==> !keepable(parts[j]),
    ensures
        last_keepable(parts) == k,
    decreases parts.len(),
{
    if k == parts.len() - 1 {
    } else {
        assert(!keepable(parts.last()));
        assert(forall|j: int|
            k < j < parts.drop_last().len() ==> !keepable(parts.drop_last()[j]));
        assert(parts.drop_last()[k] == parts[k]);
        lemma_last_keepable(parts.drop_last(), k);
    }
}

/// If no piece is keepable, the last keepable index is -1.
proof fn lemma_none_keepable(parts: Seq<Seq<char>>)
    requires
        forall|j: int| 0 <= j < parts.len() ==> !keepable(parts[j]),
    ensures
        last_keepable(parts) == -1,
    decreases parts.len(),
{
    if parts.len() > 0 {
        lemma_none_keepable(parts.drop_last());
    }
}

/// The project name encoded by a project directory name.
pub fn extract_project_name(dir_name: &str) -> (r: String)
    ensures
        r@ == spec_extract_project_name(dir_name@),
{
    let parts = str_split_char(dir_name, '-');
    let ghost pv = parts.deep_view();
    let n = parts.len();
    proof {
        assert(pv.len() == parts@.len());
    }
    let mut g: usize = n;
    let mut i: usize = 0;
    loop
        invariant_except_break
            g == n,
        invariant
            n == parts@.len(),
            pv == parts.deep_view(),
            pv.len() == n,
            0 <= i <= n,
            forall|j: int| 0 <= j < i ==> pv[j] != "GitHub"@,
        ensures
            g <= n,
            g == n ==> forall|j: int| 0 <= j < n ==> pv[j] != "GitHub"@,
            g < n ==> pv[g as int] == "GitHub"@ && (forall|j: int|
                0 <= j < g ==> pv[j] != "GitHub"@),
        decreases n - i,
    {
        if i >= n {
            break ;
        }
        if str_eq(parts[i].as_str(), "GitHub") {
            g = i;
            break ;
        }
        i += 1;
    }
    if g < n {
        proof {
            lemma_first_github(pv, 0, g as int);
        }
        if g + 1 == n {
            proof {
                assert(pv.skip(g + 1).len() == 0);
            }
            let mut owned = String::new();
            owned.append(dir_name);
            owned
        } else {
            let mut after: Vec<String> = Vec::new();
            let mut j: usize = g + 1;
            proof {
                assert(after.deep_view() =~= pv.subrange(g + 1, g + 1));
            }
            while j < n
                invariant
                    n == parts@.len(),
                    pv == parts.deep_view(),
                    pv.len() == n,
                    g + 1 <= j <= n,
                    after.deep_view() == pv.subrange(g + 1, j as int),
                decreases n - j,
            {
                let ghost before = after.deep_view();
                after.push(parts[j].clone());
                proof {
                    assert(after.deep_view() =~~= before.push(pv[j as int]));
                    assert(pv.subrange(g + 1, j + 1) =~= pv.subrange(g + 1, j as int).push(
                        pv[j as int],
                    ));
                }
                j += 1;
            }
            proof {
                assert(pv.subrange(g + 1, n as int) =~= pv.skip(g + 1));
            }
            crate::textops::join_strings(&after, "/")
        }
    } else {
        proof {
            lemma_no_github(pv, 0);
        }
        let mut k: usize = n;
        while k > 0
            invariant
                n == parts@.len(),
                pv == parts.deep_view(),
                pv.len() == n,
                pv == split_char(dir_name@, '-'),
                first_github(pv, 0) == pv.len(),
                0 <= k <= n,
                forall|j: int| k <= j < n ==> !keepable(pv[j]),
            decreases k,
        {
            k -= 1;
            let part = &parts[k];
            let is_keep = !part.as_str().is_empty() && !str_eq(part.as_str(), "Users");
            proof {
                assert(is_keep == keepable(pv[k as int]));
            }
            if is_keep {
                proof {
                    lemma_last_keepable(pv, k as int);
                }
                return part.clone();
            }
        }
        proof {
            lemma_none_keepable(pv);
        }
        let mut owned = String::new();
        owned.append(dir_name);
        owned
    }
}

/// The outcome of a session lookup by id or prefix: no match, one match, or
/// several candidates to be reported, never silently defaulted.
pub enum SessionLookup {
    NoMatch,
    Unique(usize),
    Ambiguous(Vec<usize>),
}

/// Session `i` of `files` has exactly this id.
pub open spec fn exact_at(files: Seq<SessionFile>, q: Seq<char>, i: int) -> bool {
    files[i].session_id@ == q
}

/// Session `i` of `files` has an id beginning with `q`.
pub open spec fn prefix_at(files: Seq<SessionFile>, q: Seq<char>, i: int) -> bool {
    starts_with(files[i].session_id@, q)
}

/// Looks a session up by id: the first exact match wins; otherwise a unique
/// prefix match wins; several prefix matches are returned as candidates.
pub fn find_session(files: &Vec<SessionFile>, query: &str) -> (r: SessionLookup)
    ensures
        match r {
            SessionLookup::NoMatch => forall|i: int|
                0 <= i < files@.len() ==> !prefix_at(files@, query@, i),
            SessionLookup::Unique(i) => 0 <= i < files@.len() && ((exact_at(files@, query@, i as int)
                && (forall|j: int| 0 <= j < i ==> !exact_at(files@, query@, j))) || ((forall|j: int|
                0 <= j < files@.len() ==> !exact_at(files@, query@, j)) && prefix_at(
                files@,
                query@,
                i as int,
            ) && (forall|j: int|
                0 <= j < files@.len() && j != i ==> !prefix_at(files@, query@, j)))),
            SessionLookup::Ambiguous(v) => {
                &&& v@.len() >= 2
                &&& (forall|j: int| 0 <= j < files@.len() ==> !exact_at(files@, query@, j))
                &&& (forall|k: int|
                    0 <= k < v@.len() ==> 0 <= v@[k] < files@.len() && prefix_at(
                        files@,
                        query@,
                        v@[k] as int,
                    ))
                &&& (forall|k1: int, k2: int| 0 <= k1 < k2 < v@.len() ==> v@[k1] < v@[k2])
                &&& (forall|i: int|
                    0 <= i < files@.len() && prefix_at(files@, query@, i) ==> v@.contains(
                        i as usize,
                    ))
            },
        },
{
    let n = files.len();
    let mut i: usize = 0;
    while i < n
        invariant
            n == files@.len(),
            0 <= i <= n,
            forall|j: int| 0 <= j < i ==> !exact_at(files@, query@, j),
        decreases n - i,
    {
        if str_eq(files[i].session_id.as_str(), query) {
            return SessionLookup::Unique(i);
        }
        i += 1;
    }
    let mut found: Vec<usize> = Vec::new();
    let mut k: usize = 0;
    while k < n
        invariant
            n == files@.len(),
            0 <= k <= n,
            forall|j: int|
                0 <= j < found@.len() ==> 0 <= found@[j] < k && prefix_at(
                    files@,
                    query@,
                    found@[j] as int,
                ),
            forall|j1: int, j2: int| 0 <= j1 < j2 < found@.len() ==> found@[j1] < found@[j2],
            forall|i2: int|
                0 <= i2 < k && prefix_at(files@, query@, i2) ==> found@.contains(i2 as usize),
        decreases n - k,
    {
        if str_starts_with(files[k].session_id.as_str(), query) {
            let ghost before = found@;
            found.push(k);
            proof {
                assert(forall|i2: int|
                    0 <= i2 < k && prefix_at(files@, query@, i2) ==> before.contains(i2 as usize));
                assert forall|i2: int|
                    0 <= i2 < k + 1 && prefix_at(files@, query@, i2) implies found@.contains(
                    i2 as usize,
                ) by {
                    if i2 < k {
                        let w = choose|w: int| 0 <= w < before.len() && before[w] == i2 as usize;
                        assert(found@[w] == i2 as usize);
                    } else {
                        assert(found@[before.len() as int] == k);
                    }
                }
            }
        }
        k += 1;
    }
    if found.len() == 0 {
        SessionLookup::NoMatch
    } else if found.len() == 1 {
        let idx = found[0];
        proof {
            assert forall|j: int|
                0 <= j < files@.len() && j != idx implies !prefix_at(files@, query@, j) by {
                if prefix_at(files@, query@, j) {
                    assert(found@.contains(j as usize));
                    let w = choose|w: int| 0 <= w < found@.len() && found@[w] == j as usize;
                    assert(found@[0] == idx);
                }
            }
        }
        SessionLookup::Unique(idx)
    } else {
        SessionLookup::Ambiguous(found)
    }
}

} // verus!
