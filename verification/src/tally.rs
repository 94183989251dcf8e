//! Counting tables: unique string keys with monotone occurrence counts,
//! accumulated in insertion order and sorted by count for reporting.

use vstd::prelude::*;

verus! {

/// The sum of the counts of a table's entries.
pub open spec fn sum_pairs(s: Seq<(String, u64)>) -> int
    decreases s.len(),
{
    if s.len() == 0 {
        0
    } else {
        s[0].1 + sum_pairs(s.drop_first())
    }
}

/// The count stored under a key, or zero when the key is absent.
pub open spec fn count_in_pairs(s: Seq<(String, u64)>, key: Seq<char>) -> int
    decreases s.len(),
{
    if s.len() == 0 {
        0
    } else if s[0].0@ == key {
        s[0].1 as int
    } else {
        count_in_pairs(s.drop_first(), key)
    }
}

/// The index of the first entry with this key, or the length.
pub open spec fn key_index(s: Seq<(String, u64)>, key: Seq<char>) -> int
    decreases s.len(),
{
    if s.len() == 0 {
        0
    } else if s[0].0@ == key {
        0
    } else {
        1 + key_index(s.drop_first(), key)
    }
}

/// Every entry has a different key.
pub open spec fn distinct_keys(s: Seq<(String, u64)>) -> bool {
    forall|i: int, j: int| 0 <= i < j < s.len() ==> s[i].0@ != s[j].0@
}

/// Entries are ordered by count, largest first.
pub open spec fn sorted_desc(s: Seq<(String, u64)>) -> bool {
    forall|i: int, j: int| 0 <= i < j < s.len() ==> s[i].1 >= s[j].1
}

/// What `key_index` finds: the first entry with the key, or nothing.
pub proof fn lemma_key_index(s: Seq<(String, u64)>, key: Seq<char>)
    ensures
        0 <= key_index(s, key) <= s.len(),
        key_index(s, key) < s.len() ==> s[key_index(s, key)].0@ == key && (forall|j: int|
            0 <= j < key_index(s, key) ==> s[j].0@ != key),
        key_index(s, key) == s.len() ==> (forall|j: int| 0 <= j < s.len() ==> s[j].0@ != key),
    decreases s.len(),
{
    if s.len() > 0 && s[0].0@ != key {
        lemma_key_index(s.drop_first(), key);
        let ki = key_index(s, key);
        assert(ki == 1 + key_index(s.drop_first(), key));
        if ki < s.len() {
            assert(s.drop_first()[ki - 1] == s[ki]);
            assert forall|j: int| 0 <= j < ki implies s[j].0@ != key by {
                if j > 0 {
                    assert(s.drop_first()[j - 1] == s[j]);
                }
            }
        } else {
            assert forall|j: int| 0 <= j < s.len() implies s[j].0@ != key by {
                if j > 0 {
                    assert(s.drop_first()[j - 1] == s[j]);
                }
            }
        }
    }
}

/// The stored count at a first occurrence is the key's count.
pub proof fn lemma_count_in_at(s: Seq<(String, u64)>, key: Seq<char>, j: int)
    requires
        0 <= j < s.len(),
        s[j].0@ == key,
        forall|i: int| 0 <= i < j ==> s[i].0@ != key,
    ensures
        count_in_pairs(s, key) == s[j].1,
    decreases j,
{
    if j > 0 {
        lemma_count_in_at(s.drop_first(), key, j - 1);
    }
}

/// An absent key counts zero.
pub proof fn lemma_count_in_absent(s: Seq<(String, u64)>, key: Seq<char>)
    requires
        forall|i: int| 0 <= i < s.len() ==> s[i].0@ != key,
    ensures
        count_in_pairs(s, key) == 0,
    decreases s.len(),
{
    if s.len() > 0 {
        lemma_count_in_absent(s.drop_first(), key);
    }
}

/// Appending an entry adds its count to the sum.
pub proof fn lemma_sum_pairs_push(s: Seq<(String, u64)>, x: (String, u64))
    ensures
        sum_pairs(s.push(x)) == sum_pairs(s) + x.1,
    decreases s.len(),
{
    if s.len() == 0 {
        reveal_with_fuel(sum_pairs, 2);
        assert(s.push(x)[0] == x);
        assert(s.push(x).drop_first() =~= s);
    } else {
        assert(s.push(x)[0] == s[0]);
        assert(s.push(x).drop_first() =~= s.drop_first().push(x));
        lemma_sum_pairs_push(s.drop_first(), x);
    }
}

/// Replacing an entry adjusts the sum by the difference of the counts.
pub proof fn lemma_sum_pairs_update(s: Seq<(String, u64)>, j: int, x: (String, u64))
    requires
        0 <= j < s.len(),
    ensures
        sum_pairs(s.update(j, x)) == sum_pairs(s) - s[j].1 + x.1,
    decreases j,
{
    if j == 0 {
        assert(s.update(0, x)[0] == x);
        assert(s.update(0, x).drop_first() =~= s.drop_first());
    } else {
        assert(s.update(j, x)[0] == s[0]);
        assert(s.update(j, x).drop_first() =~= s.drop_first().update(j - 1, x));
        lemma_sum_pairs_update(s.drop_first(), j - 1, x);
    }
}

/// Removing an entry subtracts its count from the sum.
pub proof fn lemma_sum_pairs_remove(s: Seq<(String, u64)>, j: int)
    requires
        0 <= j < s.len(),
    ensures
        sum_pairs(s.remove(j)) == sum_pairs(s) - s[j].1,
    decreases j,
{
    if j == 0 {
        assert(s.remove(0) =~= s.drop_first());
    } else {
        assert(s.remove(j)[0] == s[0]);
        assert(s.remove(j).drop_first() =~= s.drop_first().remove(j - 1));
        lemma_sum_pairs_remove(s.drop_first(), j - 1);
    }
}

/// Two tables holding the same entries in any order have the same sum.
pub proof fn lemma_sum_pairs_permutation(a: Seq<(String, u64)>, b: Seq<(String, u64)>)
    requires
        a.to_multiset() == b.to_multiset(),
    ensures
        sum_pairs(a) == sum_pairs(b),
    decreases a.len(),
{
    broadcast use vstd::seq_lib::group_to_multiset_ensures;

    if a.len() == 0 {
        assert(b.to_multiset().len() == 0);
        assert(b.len() == 0);
    } else {
        let x = a[0];
        assert(a.contains(x));
        assert(a.to_multiset().count(x) > 0);
        assert(b.to_multiset().count(x) > 0);
        assert(b.contains(x));
        let j = choose|j: int| 0 <= j < b.len() && b[j] == x;
        assert(a.remove(0).to_multiset() == a.to_multiset().remove(x));
        assert(b.remove(j).to_multiset() == b.to_multiset().remove(x));
        assert(a.remove(0) =~= a.drop_first());
        lemma_sum_pairs_permutation(a.drop_first(), b.remove(j));
        lemma_sum_pairs_remove(b, j);
    }
}

/// A table of unique string keys and their occurrence counts, in first-seen
/// order.
pub struct CountTable {
    entries: Vec<(String, u64)>,
}

impl CountTable {
    /// The entries, in insertion order.
    pub closed spec fn pairs(&self) -> Seq<(String, u64)> {
        self.entries@
    }

    /// Keys are unique.
    pub open spec fn wf(&self) -> bool {
        distinct_keys(self.pairs())
    }

    /// An empty table.
    pub fn new() -> (r: CountTable)
        ensures
            r.pairs().len() == 0,
            r.wf(),
    {
        CountTable { entries: Vec::new() }
    }

    /// How many distinct keys the table holds.
    pub fn len(&self) -> (r: usize)
        ensures
            r == self.pairs().len(),
    {
        self.entries.len()
    }

    /// The entries, for sorting and rendering; consumes the table.
    pub fn into_entries(self) -> (r: Vec<(String, u64)>)
        ensures
            r@ == self.pairs(),
    {
        self.entries
    }

    /// The count stored under a key.
    pub fn get(&self, key: &str) -> (r: u64)
        ensures
            r as int == count_in_pairs(self.pairs(), key@),
    {
        let mut j: usize = 0;
        while j < self.entries.len()
            invariant
                0 <= j <= self.entries@.len(),
                forall|i: int| 0 <= i < j ==> self.entries@[i].0@ != key@,
            decreases self.entries@.len() - j,
        {
            if crate::textops::str_eq(self.entries[j].0.as_str(), key) {
                proof {
                    lemma_count_in_at(self.pairs(), key@, j as int);
                }
                return self.entries[j].1;
            }
            j += 1;
        }
        proof {
            lemma_count_in_absent(self.pairs(), key@);
        }
        0
    }

    /// Adds `amount` to the key's count, creating the entry at the end if
    /// the key is new.
    pub fn add(&mut self, key: &str, amount: u64)
        requires
            old(self).wf(),
            count_in_pairs(old(self).pairs(), key@) + amount <= u64::MAX,
        ensures
            final (self).wf(),
            sum_pairs(final (self).pairs()) == sum_pairs(old(self).pairs()) + amount,
            count_in_pairs(final (self).pairs(), key@) == count_in_pairs(
                old(self).pairs(),
                key@,
            ) + amount,
            forall|k2: Seq<char>|
                k2 != key@ ==> count_in_pairs(final (self).pairs(), k2) == count_in_pairs(
                    old(self).pairs(),
                    k2,
                ),
            key_index(old(self).pairs(), key@) < old(self).pairs().len() ==> final (self).pairs()
                == old(self).pairs().update(
                key_index(old(self).pairs(), key@),
                (
                    old(self).pairs()[key_index(old(self).pairs(), key@)].0,
                    (old(self).pairs()[key_index(old(self).pairs(), key@)].1 + amount) as u64,
                ),
            ),
            key_index(old(self).pairs(), key@) == old(self).pairs().len() ==> {
                &&& final (self).pairs().len() == old(self).pairs().len() + 1
                &&& final (self).pairs().take(old(self).pairs().len() as int) == old(self).pairs()
                &&& final (self).pairs().last().0@ == key@
                &&& final (self).pairs().last().1 == amount
            },
    {
        let ghost before = self.entries@;
        let mut j: usize = 0;
        let n = self.entries.len();
        while j < n
            invariant
                n == self.entries@.len(),
                self.entries@ == before,
                before == old(self).pairs(),
                distinct_keys(before),
                count_in_pairs(before, key@) + amount <= u64::MAX,
                0 <= j <= n,
                forall|i: int| 0 <= i < j ==> self.entries@[i].0@ != key@,
            decreases n - j,
        {
            if crate::textops::str_eq(self.entries[j].0.as_str(), key) {
                proof {
                    lemma_key_index_at(before, key@, j as int);
                    lemma_count_in_at(before, key@, j as int);
                }
                let old_pair = self.entries.remove(j);
                let new_count = old_pair.1 + amount;
                self.entries.insert(j, (old_pair.0, new_count));
                proof {
                    let updated = before.update(j as int, (before[j as int].0, new_count));
                    assert(self.entries@ =~= updated);
                    lemma_sum_pairs_update(before, j as int, (before[j as int].0, new_count));
                    lemma_count_in_at(updated, key@, j as int);
                    assert forall|k2: Seq<char>| k2 != key@ implies count_in_pairs(
                        updated,
                        k2,
                    ) == count_in_pairs(before, k2) by {
                        lemma_count_in_other(before, updated, k2);
                    }
                }
                return ;
            }
            j += 1;
        }
        proof {
            lemma_key_index_absent(before, key@);
            lemma_count_in_absent(before, key@);
        }
        let mut owned = String::new();
        owned.append(key);
        self.entries.push((owned, amount));
        proof {
            let after = self.entries@;
            assert(after.drop_last() =~= before);
            assert(after.take(before.len() as int) =~= before);
            lemma_sum_pairs_push(before, after.last());
            assert(after =~= before.push(after.last()));
            lemma_count_in_at(after, key@, before.len() as int);
            assert forall|k2: Seq<char>| k2 != key@ implies count_in_pairs(after, k2)
                == count_in_pairs(before, k2) by {
                lemma_count_in_other(before, after, k2);
            }
        }
    }
}

/// If piece `j` holds the key and earlier entries do not, `j` is the key's
/// index.
proof fn lemma_key_index_at(s: Seq<(String, u64)>, key: Seq<char>, j: int)
    requires
        0 <= j < s.len(),
        s[j].0@ == key,
        forall|i: int| 0 <= i < j ==> s[i].0@ != key,
    ensures
        key_index(s, key) == j,
    decreases j,
{
    if j > 0 {
        lemma_key_index_at(s.drop_first(), key, j - 1);
    }
}

/// If no entry holds the key, its index is the length.
proof fn lemma_key_index_absent(s: Seq<(String, u64)>, key: Seq<char>)
    requires
        forall|i: int| 0 <= i < s.len() ==> s[i].0@ != key,
    ensures
        key_index(s, key) == s.len(),
    decreases s.len(),
{
    if s.len() > 0 {
        lemma_key_index_absent(s.drop_first(), key);
    }
}

/// Two tables that agree entrywise on every entry whose key is `k2` agree on
/// `k2`'s count. Here: `b` differs from `a` only at positions whose key is
/// not `k2`, in the sense that they have equal length and agree on key-`k2`
/// prefix structure.
proof fn lemma_count_in_other(a: Seq<(String, u64)>, b: Seq<(String, u64)>, k2: Seq<char>)
    requires
        a.len() <= b.len() <= a.len() + 1,
        forall|i: int| 0 <= i < a.len() && #[trigger] a[i].0@ == k2 ==> b[i] == a[i],
        forall|i: int| 0 <= i < a.len() && #[trigger] a[i].0@ != k2 ==> b[i].0@ != k2,
        b.len() == a.len() + 1 ==> b.last().0@ != k2,
    ensures
        count_in_pairs(b, k2) == count_in_pairs(a, k2),
    decreases a.len(),
{
    if a.len() == 0 {
        if b.len() == 1 {
            assert(count_in_pairs(b, k2) == count_in_pairs(b.drop_first(), k2));
            assert(b.drop_first() =~= Seq::<(String, u64)>::empty());
        }
    } else {
        assert(a[0].0@ == k2 ==> b[0] == a[0]);
        if a[0].0@ == k2 {
        } else {
            lemma_count_in_other(a.drop_first(), b.drop_first(), k2);
            assert(b.drop_first().len() == b.len() - 1);
        }
    }
}

/// The entries sorted by count, largest first: a permutation of the input.
pub fn sort_entries_desc(v: Vec<(String, u64)>) -> (r: Vec<(String, u64)>)
    ensures
        sorted_desc(r@),
        r@.to_multiset() == v@.to_multiset(),
        r@.len() == v@.len(),
        sum_pairs(r@) == sum_pairs(v@),
{
    broadcast use vstd::seq_lib::group_to_multiset_ensures;
    broadcast use vstd::multiset::group_multiset_axioms;

    let ghost orig = v@;
    let mut v = v;
    let mut out: Vec<(String, u64)> = Vec::new();
    proof {
        assert(out@.to_multiset().add(v@.to_multiset()) =~= orig.to_multiset());
    }
    while v.len() > 0
        invariant
            sorted_desc(out@),
            out@.to_multiset().add(v@.to_multiset()) == orig.to_multiset(),
            out@.len() + v@.len() == orig.len(),
        decreases v@.len(),
    {
        let ghost vbefore = v@;
        let x = v.remove(0);
        proof {
            broadcast use vstd::seq_lib::group_to_multiset_ensures;
            broadcast use vstd::multiset::group_multiset_axioms;

            assert(vbefore[0] == x);
            assert(vbefore.remove(0).to_multiset() == vbefore.to_multiset().remove(x));
            assert(vbefore.contains(x));
            assert(vbefore.to_multiset().count(x) > 0);
        }
        let mut pos: usize = 0;
        while pos < out.len() && out[pos].1 >= x.1
            invariant
                0 <= pos <= out@.len(),
                forall|i: int| 0 <= i < pos ==> out@[i].1 >= x.1,
            decreases out@.len() - pos,
        {
            pos += 1;
        }
        proof {
            assert(pos < out@.len() ==> out@[pos as int].1 < x.1);
        }
        let ghost obefore = out@;
        out.insert(pos, x);
        proof {
            assert(out@ == obefore.insert(pos as int, x));
            assert forall|i: int, j: int| 0 <= i < j < out@.len() implies out@[i].1
                >= out@[j].1 by {
                if i < pos && j < pos {
                } else if i < pos && j == pos {
                } else if i == pos && j > pos {
                    assert(out@[j] == obefore[j - 1]);
                    if j - 1 >= pos {
                        assert(obefore[pos as int].1 < x.1 || pos as int == obefore.len());
                        assert(obefore[pos as int].1 >= obefore[j - 1].1 || pos as int == j - 1);
                    }
                } else {
                }
            }
            broadcast use vstd::seq_lib::group_to_multiset_ensures;
            broadcast use vstd::multiset::group_multiset_axioms;

            lemma_multiset_insert_mid(obefore, x, pos as int);
            assert(out@.to_multiset() == obefore.to_multiset().insert(x));
            assert(out@.to_multiset().add(v@.to_multiset()) =~= orig.to_multiset());
        }
    }
    proof {
        assert(v@.to_multiset().len() == 0);
        assert(out@.to_multiset() =~= orig.to_multiset());
        lemma_sum_pairs_permutation(out@, orig);
    }
    out
}

/// Inserting anywhere in a sequence inserts into its multiset.
proof fn lemma_multiset_insert_mid(s: Seq<(String, u64)>, x: (String, u64), pos: int)
    requires
        0 <= pos <= s.len(),
    ensures
        s.insert(pos, x).to_multiset() == s.to_multiset().insert(x),
{
    broadcast use vstd::seq_lib::group_to_multiset_ensures;
    broadcast use vstd::multiset::group_multiset_axioms;

    let t = s.insert(pos, x);
    assert(t[pos] == x);
    assert(t.remove(pos) =~= s);
    assert(t.remove(pos).to_multiset() == t.to_multiset().remove(t[pos]));
    assert(t.contains(x));
    assert(t.to_multiset().count(x) > 0);
    assert(t.to_multiset() =~= s.to_multiset().insert(x));
}

} // verus!
