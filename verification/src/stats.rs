//! Per-project aggregates over the discovered files: how many sessions each
//! project has and how many bytes they take.

use vstd::prelude::*;

use crate::corpus::SessionFile;
use crate::tally::{count_in_pairs, lemma_count_in_absent, CountTable};

verus! {

/// How many files belong to this project.
pub open spec fn spec_project_files(files: Seq<SessionFile>, p: Seq<char>) -> int
    decreases files.len(),
{
    if files.len() == 0 {
        0
    } else {
        (if files[0].project_name@ == p {
            1int
        } else {
            0int
        }) + spec_project_files(files.drop_first(), p)
    }
}

/// The total size of this project's files.
pub open spec fn spec_project_bytes(files: Seq<SessionFile>, p: Seq<char>) -> int
    decreases files.len(),
{
    if files.len() == 0 {
        0
    } else {
        (if files[0].project_name@ == p {
            files[0].size_bytes as int
        } else {
            0int
        }) + spec_project_bytes(files.drop_first(), p)
    }
}

/// One more file adds to its project alone.
proof fn lemma_project_files_push(files: Seq<SessionFile>, f: SessionFile, p: Seq<char>)
    ensures
        spec_project_files(files.push(f), p) == spec_project_files(files, p) + (
        if f.project_name@ == p {
            1int
        } else {
            0int
        }),
        spec_project_bytes(files.push(f), p) == spec_project_bytes(files, p) + (
        if f.project_name@ == p {
            f.size_bytes as int
        } else {
            0int
        }),
    decreases files.len(),
{
    if files.len() == 0 {
        reveal_with_fuel(spec_project_files, 2);
        reveal_with_fuel(spec_project_bytes, 2);
        assert(files.push(f)[0] == f);
        assert(files.push(f).drop_first() =~= files);
    } else {
        assert(files.push(f)[0] == files[0]);
        assert(files.push(f).drop_first() =~= files.drop_first().push(f));
        lemma_project_files_push(files.drop_first(), f, p);
    }
}

/// File counts stay within the file count; sizes stay nonnegative.
proof fn lemma_project_totals_bounds(files: Seq<SessionFile>, p: Seq<char>)
    ensures
        0 <= spec_project_files(files, p) <= files.len(),
        0 <= spec_project_bytes(files, p),
    decreases files.len(),
{
    if files.len() > 0 {
        lemma_project_totals_bounds(files.drop_first(), p);
    }
}

/// A prefix never sums more than the whole.
proof fn lemma_project_bytes_prefix_le(files: Seq<SessionFile>, i: int, p: Seq<char>)
    requires
        0 <= i <= files.len(),
    ensures
        spec_project_bytes(files.take(i), p) <= spec_project_bytes(files, p),
    decreases files.len() - i,
{
    if i < files.len() {
        assert(files.take(i + 1) =~= files.take(i).push(files[i]));
        lemma_project_files_push(files.take(i), files[i], p);
        lemma_project_totals_bounds(files.drop_first(), p);
        lemma_project_bytes_prefix_le(files, i + 1, p);
    } else {
        assert(files.take(i) =~= files);
    }
}

/// Per-project session counts and byte totals, keyed by project in
/// first-seen order; both tables carry exactly one entry per project that
/// has files, with exact totals.
pub fn project_totals(files: &Vec<SessionFile>) -> (r: (CountTable, CountTable))
    requires
        files@.len() <= u64::MAX,
        forall|p: Seq<char>| spec_project_bytes(files@, p) <= u64::MAX,
    ensures
        r.0.wf(),
        r.1.wf(),
        forall|p: Seq<char>| count_in_pairs(r.0.pairs(), p) == spec_project_files(files@, p),
        forall|p: Seq<char>| count_in_pairs(r.1.pairs(), p) == spec_project_bytes(files@, p),
{
    let mut counts = CountTable::new();
    let mut sizes = CountTable::new();
    proof {
        assert forall|p: Seq<char>| count_in_pairs(counts.pairs(), p) == 0 by {
            lemma_count_in_absent(counts.pairs(), p);
        }
        assert forall|p: Seq<char>| count_in_pairs(sizes.pairs(), p) == 0 by {
            lemma_count_in_absent(sizes.pairs(), p);
        }
        assert(files@.take(0) =~= Seq::<SessionFile>::empty());
    }
    let mut i: usize = 0;
    while i < files.len()
        invariant
            0 <= i <= files@.len(),
            files@.len() <= u64::MAX,
            forall|p: Seq<char>| spec_project_bytes(files@, p) <= u64::MAX,
            counts.wf(),
            sizes.wf(),
            forall|p: Seq<char>|
                count_in_pairs(counts.pairs(), p) == spec_project_files(files@.take(i as int), p),
            forall|p: Seq<char>|
                count_in_pairs(sizes.pairs(), p) == spec_project_bytes(files@.take(i as int), p),
        decreases files@.len() - i,
    {
        proof {
            assert(files@.take(i + 1) =~= files@.take(i as int).push(files@[i as int]));
            assert forall|p: Seq<char>|
                spec_project_files(files@.take(i + 1), p) == spec_project_files(
                    files@.take(i as int),
                    p,
                ) + (if files@[i as int].project_name@ == p {
                    1int
                } else {
                    0int
                }) && spec_project_bytes(files@.take(i + 1), p) == spec_project_bytes(
                    files@.take(i as int),
                    p,
                ) + (if files@[i as int].project_name@ == p {
                    files@[i as int].size_bytes as int
                } else {
                    0int
                }) by {
                lemma_project_files_push(files@.take(i as int), files@[i as int], p);
            }
            assert forall|p: Seq<char>|
                0 <= #[trigger] spec_project_files(files@.take(i as int), p) <= i by {
                lemma_project_totals_bounds(files@.take(i as int), p);
            }
            assert forall|p: Seq<char>|
                0 <= #[trigger] spec_project_bytes(files@.take(i as int), p) by {
                lemma_project_totals_bounds(files@.take(i as int), p);
            }
            let p0 = files@[i as int].project_name@;
            lemma_project_bytes_prefix_le(files@, i + 1, p0);
        }
        counts.add(files[i].project_name.as_str(), 1);
        sizes.add(files[i].project_name.as_str(), files[i].size_bytes);
        i += 1;
    }
    proof {
        assert(files@.take(files@.len() as int) =~= files@);
    }
    (counts, sizes)
}

} // verus!
