//! Frequency tables over a corpus: case-folded letters (from parsed message
//! text or raw bytes), words, tool names, and message roles.
//!
//! Each mode counts one file's records into a local table; local tables are
//! merged into a global one, so key counts only ever grow. Unparsable lines
//! simply contribute no records.

use vstd::prelude::*;

use crate::models::{spec_message_of, spec_role_str, spec_text_content, spec_tool_list, Record};
use crate::tally::{count_in_pairs, distinct_keys, lemma_count_in_absent, lemma_count_in_at, CountTable};
use crate::textops::{lower_of, word_runs};

verus! {

/// The letter bucket of a character: 0 to 25 for ASCII letters of either
/// case, -1 otherwise.
pub open spec fn letter_index(c: char) -> int {
    if 'a' <= c && c <= 'z' {
        c as int - 'a' as int
    } else if 'A' <= c && c <= 'Z' {
        c as int - 'A' as int
    } else {
        -1
    }
}

/// The letter bucket of a byte, the same way.
pub open spec fn byte_letter_index(b: u8) -> int {
    if 97 <= b && b <= 122 {
        b as int - 97
    } else if 65 <= b && b <= 90 {
        b as int - 65
    } else {
        -1
    }
}

/// How many characters of the text fall in letter bucket `idx`.
pub open spec fn spec_letter_count(s: Seq<char>, idx: int) -> int
    decreases s.len(),
{
    if s.len() == 0 {
        0
    } else {
        (if letter_index(s[0]) == idx {
            1int
        } else {
            0int
        }) + spec_letter_count(s.drop_first(), idx)
    }
}

/// How many bytes fall in letter bucket `idx`.
pub open spec fn spec_byte_letter_count(s: Seq<u8>, idx: int) -> int
    decreases s.len(),
{
    if s.len() == 0 {
        0
    } else {
        (if byte_letter_index(s[0]) == idx {
            1int
        } else {
            0int
        }) + spec_byte_letter_count(s.drop_first(), idx)
    }
}

/// One more character adds to its bucket alone.
proof fn lemma_letter_count_push(s: Seq<char>, c: char, idx: int)
    ensures
        spec_letter_count(s.push(c), idx) == spec_letter_count(s, idx) + (if letter_index(c)
            == idx {
            1int
        } else {
            0int
        }),
    decreases s.len(),
{
    if s.len() == 0 {
        reveal_with_fuel(spec_letter_count, 2);
        assert(s.push(c)[0] == c);
        assert(s.push(c).drop_first() =~= s);
    } else {
        assert(s.push(c)[0] == s[0]);
        assert(s.push(c).drop_first() =~= s.drop_first().push(c));
        lemma_letter_count_push(s.drop_first(), c, idx);
    }
}

/// One more byte adds to its bucket alone.
proof fn lemma_byte_letter_count_push(s: Seq<u8>, b: u8, idx: int)
    ensures
        spec_byte_letter_count(s.push(b), idx) == spec_byte_letter_count(s, idx) + (
        if byte_letter_index(b) == idx {
            1int
        } else {
            0int
        }),
    decreases s.len(),
{
    if s.len() == 0 {
        reveal_with_fuel(spec_byte_letter_count, 2);
        assert(s.push(b)[0] == b);
        assert(s.push(b).drop_first() =~= s);
    } else {
        assert(s.push(b)[0] == s[0]);
        assert(s.push(b).drop_first() =~= s.drop_first().push(b));
        lemma_byte_letter_count_push(s.drop_first(), b, idx);
    }
}

/// No bucket counts more than the whole text.
proof fn lemma_letter_count_le(s: Seq<char>, idx: int)
    ensures
        0 <= spec_letter_count(s, idx) <= s.len(),
    decreases s.len(),
{
    if s.len() > 0 {
        lemma_letter_count_le(s.drop_first(), idx);
    }
}

/// No bucket counts more than the whole input.
proof fn lemma_byte_letter_count_le(s: Seq<u8>, idx: int)
    ensures
        0 <= spec_byte_letter_count(s, idx) <= s.len(),
    decreases s.len(),
{
    if s.len() > 0 {
        lemma_byte_letter_count_le(s.drop_first(), idx);
    }
}

/// The letter bucket of a character, or 26 for a non-letter.
fn letter_bucket(c: char) -> (r: usize)
    ensures
        r <= 26,
        r < 26 ==> letter_index(c) == r,
        r == 26 ==> letter_index(c) == -1,
{
    if c >= 'a' && c <= 'z' {
        (c as u32 - 'a' as u32) as usize
    } else if c >= 'A' && c <= 'Z' {
        (c as u32 - 'A' as u32) as usize
    } else {
        26
    }
}

/// The letter bucket of a byte, or 26 for a non-letter.
fn byte_letter_bucket(b: u8) -> (r: usize)
    ensures
        r <= 26,
        r < 26 ==> byte_letter_index(b) == r,
        r == 26 ==> byte_letter_index(b) == -1,
{
    if b >= 97 && b <= 122 {
        (b - 97) as usize
    } else if b >= 65 && b <= 90 {
        (b - 65) as usize
    } else {
        26
    }
}

/// Adds each letter of the text to its bucket.
pub fn count_letters_of_text(counts: &mut Vec<u64>, text: &str)
    requires
        old(counts)@.len() == 26,
        forall|k: int| 0 <= k < 26 ==> #[trigger] old(counts)@[k] + text@.len() <= u64::MAX,
    ensures
        final (counts)@.len() == 26,
        forall|k: int|
            0 <= k < 26 ==> #[trigger] final (counts)@[k] == old(counts)@[k] + spec_letter_count(
                text@,
                k,
            ),
{
    let ghost base = counts@;
    let chars = crate::textops::chars_of(text);
    let mut i: usize = 0;
    proof {
        assert(text@.take(0) =~= Seq::<char>::empty());
    }
    while i < chars.len()
        invariant
            chars@ == text@,
            base.len() == 26,
            counts@.len() == 26,
            0 <= i <= text@.len(),
            forall|k: int| 0 <= k < 26 ==> #[trigger] base[k] + text@.len() <= u64::MAX,
            forall|k: int|
                0 <= k < 26 ==> #[trigger] counts@[k] == base[k] + spec_letter_count(
                    text@.take(i as int),
                    k,
                ),
        decreases text@.len() - i,
    {
        let b = letter_bucket(chars[i]);
        proof {
            assert(text@.take(i + 1) =~= text@.take(i as int).push(text@[i as int]));
            assert forall|k: int| 0 <= k < 26 implies spec_letter_count(text@.take(i + 1), k)
                == spec_letter_count(text@.take(i as int), k) + (if letter_index(text@[i as int])
                == k {
                1int
            } else {
                0int
            }) by {
                lemma_letter_count_push(text@.take(i as int), text@[i as int], k);
            }
            assert forall|k: int| 0 <= k < 26 implies 0 <= #[trigger] spec_letter_count(
                text@.take(i as int),
                k,
            ) <= i by {
                lemma_letter_count_le(text@.take(i as int), k);
            }
        }
        if b < 26 {
            counts[b] = counts[b] + 1;
        }
        i += 1;
    }
    proof {
        assert(text@.take(text@.len() as int) =~= text@);
    }
}

/// Adds each letter byte of the raw input to its bucket.
pub fn count_letters_of_bytes(counts: &mut Vec<u64>, data: &Vec<u8>)
    requires
        old(counts)@.len() == 26,
        forall|k: int| 0 <= k < 26 ==> #[trigger] old(counts)@[k] + data@.len() <= u64::MAX,
    ensures
        final (counts)@.len() == 26,
        forall|k: int|
            0 <= k < 26 ==> #[trigger] final (counts)@[k] == old(counts)@[k]
                + spec_byte_letter_count(data@, k),
{
    let ghost base = counts@;
    let mut i: usize = 0;
    proof {
        assert(data@.take(0) =~= Seq::<u8>::empty());
    }
    while i < data.len()
        invariant
            base.len() == 26,
            counts@.len() == 26,
            0 <= i <= data@.len(),
            forall|k: int| 0 <= k < 26 ==> #[trigger] base[k] + data@.len() <= u64::MAX,
            forall|k: int|
                0 <= k < 26 ==> #[trigger] counts@[k] == base[k] + spec_byte_letter_count(
                    data@.take(i as int),
                    k,
                ),
        decreases data@.len() - i,
    {
        let b = byte_letter_bucket(data[i]);
        proof {
            assert(data@.take(i + 1) =~= data@.take(i as int).push(data@[i as int]));
            assert forall|k: int| 0 <= k < 26 implies spec_byte_letter_count(data@.take(i + 1), k)
                == spec_byte_letter_count(data@.take(i as int), k) + (if byte_letter_index(
                data@[i as int],
            ) == k {
                1int
            } else {
                0int
            }) by {
                lemma_byte_letter_count_push(data@.take(i as int), data@[i as int], k);
            }
            assert forall|k: int| 0 <= k < 26 implies 0 <= #[trigger] spec_byte_letter_count(
                data@.take(i as int),
                k,
            ) <= i by {
                lemma_byte_letter_count_le(data@.take(i as int), k);
            }
        }
        if b < 26 {
            counts[b] = counts[b] + 1;
        }
        i += 1;
    }
    proof {
        assert(data@.take(data@.len() as int) =~= data@);
    }
}

/// A fresh 26-bucket letter table.
pub fn new_letter_counts() -> (r: Vec<u64>)
    ensures
        r@.len() == 26,
        forall|k: int| 0 <= k < 26 ==> #[trigger] r@[k] == 0,
{
    let mut v: Vec<u64> = Vec::new();
    let mut i: usize = 0;
    while i < 26
        invariant
            0 <= i <= 26,
            v@.len() == i,
            forall|k: int| 0 <= k < i ==> #[trigger] v@[k] == 0,
        decreases 26 - i,
    {
        v.push(0);
        i += 1;
    }
    v
}

/// Merges one letter table into another, bucket by bucket.
pub fn merge_letter_counts(global: &mut Vec<u64>, local: &Vec<u64>)
    requires
        old(global)@.len() == 26,
        local@.len() == 26,
        forall|k: int| 0 <= k < 26 ==> #[trigger] old(global)@[k] + local@[k] <= u64::MAX,
    ensures
        final (global)@.len() == 26,
        forall|k: int|
            0 <= k < 26 ==> #[trigger] final (global)@[k] == old(global)@[k] + local@[k],
{
    let ghost base = global@;
    let mut i: usize = 0;
    while i < 26
        invariant
            base.len() == 26,
            global@.len() == 26,
            local@.len() == 26,
            0 <= i <= 26,
            forall|k: int| 0 <= k < 26 ==> #[trigger] base[k] + local@[k] <= u64::MAX,
            forall|k: int| i <= k < 26 ==> #[trigger] global@[k] == base[k],
            forall|k: int| 0 <= k < i ==> #[trigger] global@[k] == base[k] + local@[k],
        decreases 26 - i,
    {
        global[i] = global[i] + local[i];
        i += 1;
    }
}

/// How many runs, case-folded, equal `w`, among those of at least `min_len`
/// characters before folding.
pub open spec fn spec_word_occurrences(runs: Seq<Seq<char>>, w: Seq<char>, min_len: int) -> int
    decreases runs.len(),
{
    if runs.len() == 0 {
        0
    } else {
        (if runs[0].len() >= min_len && lower_of(runs[0]) == w {
            1int
        } else {
            0int
        }) + spec_word_occurrences(runs.drop_first(), w, min_len)
    }
}

/// One more run adds its own occurrence, if it qualifies.
proof fn lemma_word_occurrences_push(runs: Seq<Seq<char>>, x: Seq<char>, w: Seq<char>, min_len: int)
    ensures
        spec_word_occurrences(runs.push(x), w, min_len) == spec_word_occurrences(runs, w, min_len)
            + (if x.len() >= min_len && lower_of(x) == w {
            1int
        } else {
            0int
        }),
    decreases runs.len(),
{
    if runs.len() == 0 {
        reveal_with_fuel(spec_word_occurrences, 2);
        assert(runs.push(x)[0] == x);
        assert(runs.push(x).drop_first() =~= runs);
    } else {
        assert(runs.push(x)[0] == runs[0]);
        assert(runs.push(x).drop_first() =~= runs.drop_first().push(x));
        lemma_word_occurrences_push(runs.drop_first(), x, w, min_len);
    }
}

/// No word occurs more often than there are runs.
proof fn lemma_word_occurrences_le(runs: Seq<Seq<char>>, w: Seq<char>, min_len: int)
    ensures
        0 <= spec_word_occurrences(runs, w, min_len) <= runs.len(),
    decreases runs.len(),
{
    if runs.len() > 0 {
        lemma_word_occurrences_le(runs.drop_first(), w, min_len);
    }
}

/// The word runs of one record's extracted text; a non-message has none.
pub open spec fn spec_record_runs(r: Record) -> Seq<Seq<char>> {
    if r is Other {
        Seq::empty()
    } else {
        word_runs(spec_text_content(spec_message_of(r), true), false)
    }
}

/// How often the case-folded word `w` occurs across the records' texts,
/// counting runs of at least three characters.
pub open spec fn spec_words_count(records: Seq<Record>, w: Seq<char>) -> int
    decreases records.len(),
{
    if records.len() == 0 {
        0
    } else {
        spec_word_occurrences(spec_record_runs(records[0]), w, 3) + spec_words_count(
            records.drop_first(),
            w,
        )
    }
}

/// One more record adds its own occurrences.
proof fn lemma_words_count_push(records: Seq<Record>, r: Record, w: Seq<char>)
    ensures
        spec_words_count(records.push(r), w) == spec_words_count(records, w)
            + spec_word_occurrences(spec_record_runs(r), w, 3),
    decreases records.len(),
{
    if records.len() == 0 {
        reveal_with_fuel(spec_words_count, 2);
        assert(records.push(r)[0] == r);
        assert(records.push(r).drop_first() =~= records);
    } else {
        assert(records.push(r)[0] == records[0]);
        assert(records.push(r).drop_first() =~= records.drop_first().push(r));
        lemma_words_count_push(records.drop_first(), r, w);
    }
}

/// Counts one record's qualifying words into the table.
fn count_words_of_record(table: &mut CountTable, rec: &Record)
    requires
        old(table).wf(),
        forall|w: Seq<char>|
            count_in_pairs(old(table).pairs(), w) + spec_word_occurrences(
                spec_record_runs(*rec),
                w,
                3,
            ) <= u64::MAX,
    ensures
        final (table).wf(),
        forall|w: Seq<char>|
            count_in_pairs(final (table).pairs(), w) == count_in_pairs(old(table).pairs(), w)
                + spec_word_occurrences(spec_record_runs(*rec), w, 3),
{
    let ghost base = table.pairs();
    let msg = match rec.as_message_record() {
        Some(m) => m,
        None => {
            proof {
                assert(spec_record_runs(*rec) =~= Seq::<Seq<char>>::empty());
            }
            return ;
        },
    };
    let text = msg.text_content();
    let tokens = crate::textops::tokenize(text.as_str(), false);
    let ghost runs = spec_record_runs(*rec);
    proof {
        assert(tokens.deep_view() == runs);
    }
    let mut i: usize = 0;
    proof {
        assert(runs.take(0) =~= Seq::<Seq<char>>::empty());
    }
    while i < tokens.len()
        invariant
            tokens.deep_view() == runs,
            runs.len() == tokens@.len(),
            forall|j: int| 0 <= j < tokens@.len() ==> runs[j] == #[trigger] tokens@[j]@,
            0 <= i <= tokens@.len(),
            table.wf(),
            forall|w: Seq<char>|
                count_in_pairs(base, w) + spec_word_occurrences(runs, w, 3) <= u64::MAX,
            forall|w: Seq<char>|
                count_in_pairs(table.pairs(), w) == count_in_pairs(base, w)
                    + spec_word_occurrences(runs.take(i as int), w, 3),
        decreases tokens@.len() - i,
    {
        let token = &tokens[i];
        let token_chars = crate::textops::chars_of(token.as_str());
        proof {
            assert(runs.take(i + 1) =~= runs.take(i as int).push(runs[i as int]));
            assert forall|w: Seq<char>|
                spec_word_occurrences(runs.take(i + 1), w, 3) == spec_word_occurrences(
                    runs.take(i as int),
                    w,
                    3,
                ) + (if runs[i as int].len() >= 3 && lower_of(runs[i as int]) == w {
                    1int
                } else {
                    0int
                }) by {
                lemma_word_occurrences_push(runs.take(i as int), runs[i as int], w, 3);
            }
            assert forall|w: Seq<char>|
                0 <= #[trigger] spec_word_occurrences(runs.take(i as int), w, 3) <= i by {
                lemma_word_occurrences_le(runs.take(i as int), w, 3);
            }
            assert forall|w: Seq<char>|
                0 <= #[trigger] spec_word_occurrences(runs, w, 3) by {
                lemma_word_occurrences_le(runs, w, 3);
            }
        }
        if token_chars.len() >= 3 {
            let low = crate::textops::to_lowercase(token.as_str());
            proof {
                let w0 = lower_of(runs[i as int]);
                assert(spec_word_occurrences(runs.take(i + 1), w0, 3) == spec_word_occurrences(
                    runs.take(i as int),
                    w0,
                    3,
                ) + 1);
                lemma_occurrences_monotone(runs, i as int, w0);
            }
            table.add(low.as_str(), 1);
        }
        i += 1;
    }
    proof {
        assert(runs.take(runs.len() as int) =~= runs);
    }
}

/// A prefix never counts more than the whole.
proof fn lemma_occurrences_prefix_le(runs: Seq<Seq<char>>, i: int, w: Seq<char>, min_len: int)
    requires
        0 <= i <= runs.len(),
    ensures
        spec_word_occurrences(runs.take(i), w, min_len) <= spec_word_occurrences(
            runs,
            w,
            min_len,
        ),
    decreases runs.len() - i,
{
    if i < runs.len() {
        assert(runs.take(i + 1) =~= runs.take(i).push(runs[i]));
        lemma_word_occurrences_push(runs.take(i), runs[i], w, min_len);
        lemma_occurrences_prefix_le(runs, i + 1, w, min_len);
    } else {
        assert(runs.take(i) =~= runs);
    }
}

/// The count after one more qualifying run still fits under the whole.
proof fn lemma_occurrences_monotone(runs: Seq<Seq<char>>, i: int, w: Seq<char>)
    requires
        0 <= i < runs.len(),
    ensures
        spec_word_occurrences(runs.take(i + 1), w, 3) <= spec_word_occurrences(runs, w, 3),
{
    lemma_occurrences_prefix_le(runs, i + 1, w, 3);
}

/// The qualifying-word counts of a record list: for every case-folded word,
/// exactly its number of occurrences.
pub fn word_counts_of_records(records: &Vec<Record>) -> (table: CountTable)
    requires
        forall|w: Seq<char>| spec_words_count(records@, w) <= u64::MAX,
    ensures
        table.wf(),
        forall|w: Seq<char>| count_in_pairs(table.pairs(), w) == spec_words_count(records@, w),
{
    let mut table = CountTable::new();
    proof {
        assert forall|w: Seq<char>| count_in_pairs(table.pairs(), w) == 0 by {
            lemma_count_in_absent(table.pairs(), w);
        }
        assert(records@.take(0) =~= Seq::<Record>::empty());
    }
    let mut i: usize = 0;
    while i < records.len()
        invariant
            0 <= i <= records@.len(),
            table.wf(),
            forall|w: Seq<char>| spec_words_count(records@, w) <= u64::MAX,
            forall|w: Seq<char>|
                count_in_pairs(table.pairs(), w) == spec_words_count(records@.take(i as int), w),
        decreases records@.len() - i,
    {
        proof {
            assert(records@.take(i + 1) =~= records@.take(i as int).push(records@[i as int]));
            assert forall|w: Seq<char>|
                spec_words_count(records@.take(i + 1), w) == spec_words_count(
                    records@.take(i as int),
                    w,
                ) + spec_word_occurrences(spec_record_runs(records@[i as int]), w, 3) by {
                lemma_words_count_push(records@.take(i as int), records@[i as int], w);
            }
            assert forall|w: Seq<char>|
                count_in_pairs(table.pairs(), w) + spec_word_occurrences(
                    spec_record_runs(records@[i as int]),
                    w,
                    3,
                ) <= u64::MAX by {
                lemma_words_count_prefix_le(records@, i + 1, w);
                lemma_words_count_nonneg(records@.take(i as int), w);
            }
        }
        count_words_of_record(&mut table, &records[i]);
        i += 1;
    }
    proof {
        assert(records@.take(records@.len() as int) =~= records@);
    }
    table
}

/// Word counts never go negative.
proof fn lemma_words_count_nonneg(records: Seq<Record>, w: Seq<char>)
    ensures
        0 <= spec_words_count(records, w),
    decreases records.len(),
{
    if records.len() > 0 {
        lemma_word_occurrences_le(spec_record_runs(records[0]), w, 3);
        lemma_words_count_nonneg(records.drop_first(), w);
    }
}

/// A prefix never counts more than the whole record list.
proof fn lemma_words_count_prefix_le(records: Seq<Record>, i: int, w: Seq<char>)
    requires
        0 <= i <= records.len(),
    ensures
        spec_words_count(records.take(i), w) <= spec_words_count(records, w),
    decreases records.len() - i,
{
    if i < records.len() {
        assert(records.take(i + 1) =~= records.take(i).push(records[i]));
        lemma_words_count_push(records.take(i), records[i], w);
        lemma_word_occurrences_le(spec_record_runs(records[i]), w, 3);
        lemma_words_count_prefix_le(records, i + 1, w);
    } else {
        assert(records.take(i) =~= records);
    }
}

/// Folds a local table into a global one: every key's count is the sum of
/// the two.
pub fn merge_tables(global: &mut CountTable, local: CountTable)
    requires
        old(global).wf(),
        local.wf(),
        forall|w: Seq<char>|
            count_in_pairs(old(global).pairs(), w) + count_in_pairs(local.pairs(), w)
                <= u64::MAX,
    ensures
        final (global).wf(),
        forall|w: Seq<char>|
            count_in_pairs(final (global).pairs(), w) == count_in_pairs(old(global).pairs(), w)
                + count_in_pairs(local.pairs(), w),
{
    let ghost g0 = global.pairs();
    let ghost lp = local.pairs();
    let entries = local.into_entries();
    let mut i: usize = 0;
    proof {
        assert forall|w: Seq<char>|
            count_in_pairs(lp.take(0), w) == 0 by {
            assert(lp.take(0) =~= Seq::<(String, u64)>::empty());
            lemma_count_in_absent(lp.take(0), w);
        }
    }
    while i < entries.len()
        invariant
            entries@ == lp,
            distinct_keys(lp),
            0 <= i <= lp.len(),
            global.wf(),
            forall|w: Seq<char>| count_in_pairs(g0, w) + count_in_pairs(lp, w) <= u64::MAX,
            forall|w: Seq<char>|
                count_in_pairs(global.pairs(), w) == count_in_pairs(g0, w) + count_in_pairs(
                    lp.take(i as int),
                    w,
                ),
        decreases lp.len() - i,
    {
        let key = &entries[i].0;
        let amount = entries[i].1;
        proof {
            assert(lp[i as int].0@ == key@);
            assert forall|j: int| 0 <= j < i implies (#[trigger] lp[j]).0@ != key@ by {
                assert(distinct_keys(lp));
            }
            lemma_count_in_at(lp, key@, i as int);
            lemma_count_in_prefix_absent(lp, i as int, key@);
            assert forall|w: Seq<char>|
                count_in_pairs(lp.take(i + 1), w) == count_in_pairs(lp.take(i as int), w) + (
                if lp[i as int].0@ == w {
                    amount as int
                } else {
                    0int
                }) by {
                lemma_count_in_take_push(lp, i as int, w);
            }
            assert forall|w: Seq<char>| 0 <= #[trigger] count_in_pairs(lp.take(i as int), w) by {
                lemma_count_in_nonneg(lp.take(i as int), w);
            }
            assert forall|w: Seq<char>| 0 <= #[trigger] count_in_pairs(lp, w) by {
                lemma_count_in_nonneg(lp, w);
            }
        }
        global.add(key.as_str(), amount);
        i += 1;
    }
    proof {
        assert(lp.take(lp.len() as int) =~= lp);
    }
}

/// Counts never go negative.
proof fn lemma_count_in_nonneg(s: Seq<(String, u64)>, w: Seq<char>)
    ensures
        0 <= count_in_pairs(s, w),
    decreases s.len(),
{
    if s.len() > 0 {
        lemma_count_in_nonneg(s.drop_first(), w);
    }
}

/// With distinct keys, a key first seen at `i` counts zero in the prefix.
proof fn lemma_count_in_prefix_absent(s: Seq<(String, u64)>, i: int, key: Seq<char>)
    requires
        0 <= i < s.len(),
        s[i].0@ == key,
        distinct_keys(s),
    ensures
        count_in_pairs(s.take(i), key) == 0,
{
    assert forall|j: int| 0 <= j < i implies (#[trigger] s.take(i)[j]).0@ != key by {
        assert(s[j].0@ != s[i].0@);
    }
    lemma_count_in_absent(s.take(i), key);
}

/// Extending the prefix by entry `i` adds its count to its key alone.
proof fn lemma_count_in_take_push(s: Seq<(String, u64)>, i: int, w: Seq<char>)
    requires
        0 <= i < s.len(),
        distinct_keys(s),
    ensures
        count_in_pairs(s.take(i + 1), w) == count_in_pairs(s.take(i), w) + (if s[i].0@ == w {
            s[i].1 as int
        } else {
            0int
        }),
{
    assert(s.take(i + 1) =~= s.take(i).push(s[i]));
    if s[i].0@ == w {
        lemma_count_in_prefix_absent(s, i, w);
        assert forall|j: int| 0 <= j < i implies (#[trigger] s.take(i + 1)[j]).0@ != w by {
            assert(s[j].0@ != s[i].0@);
        }
        lemma_count_in_at(s.take(i + 1), w, i);
    } else {
        lemma_count_in_push_other(s.take(i), s[i], w);
    }
}

/// Appending an entry with a different key leaves a key's count alone.
proof fn lemma_count_in_push_other(s: Seq<(String, u64)>, x: (String, u64), w: Seq<char>)
    requires
        x.0@ != w,
    ensures
        count_in_pairs(s.push(x), w) == count_in_pairs(s, w),
    decreases s.len(),
{
    if s.len() == 0 {
        reveal_with_fuel(count_in_pairs, 2);
        assert(s.push(x)[0] == x);
        assert(s.push(x).drop_first() =~= s);
    } else {
        assert(s.push(x)[0] == s[0]);
        assert(s.push(x).drop_first() =~= s.drop_first().push(x));
        lemma_count_in_push_other(s.drop_first(), x, w);
    }
}

/// How many tool invocations of this name the records make.
pub open spec fn spec_tools_count(records: Seq<Record>, name: Seq<char>) -> int
    decreases records.len(),
{
    if records.len() == 0 {
        0
    } else {
        (if records[0] is Other {
            0int
        } else {
            occurrences_of(spec_tool_list(spec_message_of(records[0])), name)
        }) + spec_tools_count(records.drop_first(), name)
    }
}

/// How many entries of a name list equal `name`.
pub open spec fn occurrences_of(names: Seq<Seq<char>>, name: Seq<char>) -> int
    decreases names.len(),
{
    if names.len() == 0 {
        0
    } else {
        (if names[0] == name {
            1int
        } else {
            0int
        }) + occurrences_of(names.drop_first(), name)
    }
}

/// One more name adds its own occurrence.
proof fn lemma_occurrences_of_push(names: Seq<Seq<char>>, x: Seq<char>, name: Seq<char>)
    ensures
        occurrences_of(names.push(x), name) == occurrences_of(names, name) + (if x == name {
            1int
        } else {
            0int
        }),
    decreases names.len(),
{
    if names.len() == 0 {
        reveal_with_fuel(occurrences_of, 2);
        assert(names.push(x)[0] == x);
        assert(names.push(x).drop_first() =~= names);
    } else {
        assert(names.push(x)[0] == names[0]);
        assert(names.push(x).drop_first() =~= names.drop_first().push(x));
        lemma_occurrences_of_push(names.drop_first(), x, name);
    }
}

/// No name occurs more often than the list is long.
proof fn lemma_occurrences_of_le(names: Seq<Seq<char>>, name: Seq<char>)
    ensures
        0 <= occurrences_of(names, name) <= names.len(),
    decreases names.len(),
{
    if names.len() > 0 {
        lemma_occurrences_of_le(names.drop_first(), name);
    }
}

/// One more record adds its own tool invocations.
proof fn lemma_tools_count_push(records: Seq<Record>, r: Record, name: Seq<char>)
    ensures
        spec_tools_count(records.push(r), name) == spec_tools_count(records, name) + (
        if r is Other {
            0int
        } else {
            occurrences_of(spec_tool_list(spec_message_of(r)), name)
        }),
    decreases records.len(),
{
    if records.len() == 0 {
        reveal_with_fuel(spec_tools_count, 2);
        assert(records.push(r)[0] == r);
        assert(records.push(r).drop_first() =~= records);
    } else {
        assert(records.push(r)[0] == records[0]);
        assert(records.push(r).drop_first() =~= records.drop_first().push(r));
        lemma_tools_count_push(records.drop_first(), r, name);
    }
}

/// Tool counts never go negative.
proof fn lemma_tools_count_nonneg(records: Seq<Record>, name: Seq<char>)
    ensures
        0 <= spec_tools_count(records, name),
    decreases records.len(),
{
    if records.len() > 0 {
        if !(records[0] is Other) {
            lemma_occurrences_of_le(spec_tool_list(spec_message_of(records[0])), name);
        }
        lemma_tools_count_nonneg(records.drop_first(), name);
    }
}

/// A prefix never counts more than the whole record list.
proof fn lemma_tools_count_prefix_le(records: Seq<Record>, i: int, name: Seq<char>)
    requires
        0 <= i <= records.len(),
    ensures
        spec_tools_count(records.take(i), name) <= spec_tools_count(records, name),
    decreases records.len() - i,
{
    if i < records.len() {
        assert(records.take(i + 1) =~= records.take(i).push(records[i]));
        lemma_tools_count_push(records.take(i), records[i], name);
        if !(records[i] is Other) {
            lemma_occurrences_of_le(spec_tool_list(spec_message_of(records[i])), name);
        }
        lemma_tools_count_prefix_le(records, i + 1, name);
    } else {
        assert(records.take(i) =~= records);
    }
}

/// The tool-usage counts of a record list: for every tool name, exactly its
/// number of invocations.
pub fn tool_counts_of_records(records: &Vec<Record>) -> (table: CountTable)
    requires
        forall|name: Seq<char>| spec_tools_count(records@, name) <= u64::MAX,
    ensures
        table.wf(),
        forall|name: Seq<char>|
            count_in_pairs(table.pairs(), name) == spec_tools_count(records@, name),
{
    let mut table = CountTable::new();
    proof {
        assert forall|w: Seq<char>| count_in_pairs(table.pairs(), w) == 0 by {
            lemma_count_in_absent(table.pairs(), w);
        }
        assert(records@.take(0) =~= Seq::<Record>::empty());
    }
    let mut i: usize = 0;
    while i < records.len()
        invariant
            0 <= i <= records@.len(),
            table.wf(),
            forall|name: Seq<char>| spec_tools_count(records@, name) <= u64::MAX,
            forall|name: Seq<char>|
                count_in_pairs(table.pairs(), name) == spec_tools_count(
                    records@.take(i as int),
                    name,
                ),
        decreases records@.len() - i,
    {
        proof {
            assert(records@.take(i + 1) =~= records@.take(i as int).push(records@[i as int]));
            assert forall|name: Seq<char>|
                spec_tools_count(records@.take(i + 1), name) == spec_tools_count(
                    records@.take(i as int),
                    name,
                ) + (if records@[i as int] is Other {
                    0int
                } else {
                    occurrences_of(spec_tool_list(spec_message_of(records@[i as int])), name)
                }) by {
                lemma_tools_count_push(records@.take(i as int), records@[i as int], name);
            }
        }
        let rec = &records[i];
        match rec.as_message_record() {
            Some(msg) => {
                let names = msg.tool_calls();
                let ghost list = spec_tool_list(spec_message_of(*rec));
                proof {
                    assert(names.deep_view() == list);
                    assert(list.take(0) =~= Seq::<Seq<char>>::empty());
                }
                let mut j: usize = 0;
                while j < names.len()
                    invariant
                        names.deep_view() == list,
                        list.len() == names@.len(),
                        forall|k: int| 0 <= k < names@.len() ==> list[k] == #[trigger] names@[k]@,
                        0 <= j <= names@.len(),
                        table.wf(),
                        forall|name: Seq<char>| spec_tools_count(records@, name) <= u64::MAX,
                        forall|name: Seq<char>|
                            count_in_pairs(table.pairs(), name) == spec_tools_count(
                                records@.take(i as int),
                                name,
                            ) + occurrences_of(list.take(j as int), name),
                        i < records@.len(),
                        forall|name: Seq<char>|
                            spec_tools_count(records@.take(i + 1), name) == spec_tools_count(
                                records@.take(i as int),
                                name,
                            ) + occurrences_of(list, name),
                        !(records@[i as int] is Other),
                        spec_tool_list(spec_message_of(records@[i as int])) == list,
                    decreases names@.len() - j,
                {
                    proof {
                        assert(list.take(j + 1) =~= list.take(j as int).push(list[j as int]));
                        assert forall|name: Seq<char>|
                            occurrences_of(list.take(j + 1), name) == occurrences_of(
                                list.take(j as int),
                                name,
                            ) + (if list[j as int] == name {
                                1int
                            } else {
                                0int
                            }) by {
                            lemma_occurrences_of_push(list.take(j as int), list[j as int], name);
                        }
                        assert forall|name: Seq<char>|
                            0 <= #[trigger] occurrences_of(list.take(j as int), name) <= j by {
                            lemma_occurrences_of_le(list.take(j as int), name);
                        }
                        let nm = list[j as int];
                        lemma_tools_count_prefix_le(records@, i + 1, nm);
                        assert(spec_tools_count(records@.take(i + 1), nm) <= u64::MAX);
                        assert forall|name: Seq<char>|
                            0 <= #[trigger] spec_tools_count(records@.take(i as int), name) by {
                            lemma_tools_count_nonneg(records@.take(i as int), name);
                        }
                        lemma_occurrences_of_le(list, nm);
                        lemma_occurrences_prefix_le_of(list, j + 1, nm);
                    }
                    table.add(names[j].as_str(), 1);
                    j += 1;
                }
                proof {
                    assert(list.take(list.len() as int) =~= list);
                }
            },
            None => {},
        }
        i += 1;
    }
    proof {
        assert(records@.take(records@.len() as int) =~= records@);
    }
    table
}

/// A prefix of a name list never counts more than the whole.
proof fn lemma_occurrences_prefix_le_of(names: Seq<Seq<char>>, i: int, name: Seq<char>)
    requires
        0 <= i <= names.len(),
    ensures
        occurrences_of(names.take(i), name) <= occurrences_of(names, name),
    decreases names.len() - i,
{
    if i < names.len() {
        assert(names.take(i + 1) =~= names.take(i).push(names[i]));
        lemma_occurrences_of_push(names.take(i), names[i], name);
        lemma_occurrences_prefix_le_of(names, i + 1, name);
    } else {
        assert(names.take(i) =~= names);
    }
}

/// How many message records carry this role token.
pub open spec fn spec_roles_count(records: Seq<Record>, role: Seq<char>) -> int
    decreases records.len(),
{
    if records.len() == 0 {
        0
    } else {
        (if !(records[0] is Other) && spec_role_str(records[0]) == role {
            1int
        } else {
            0int
        }) + spec_roles_count(records.drop_first(), role)
    }
}

/// One more record adds its own role.
proof fn lemma_roles_count_push(records: Seq<Record>, r: Record, role: Seq<char>)
    ensures
        spec_roles_count(records.push(r), role) == spec_roles_count(records, role) + (
        if !(r is Other) && spec_role_str(r) == role {
            1int
        } else {
            0int
        }),
    decreases records.len(),
{
    if records.len() == 0 {
        reveal_with_fuel(spec_roles_count, 2);
        assert(records.push(r)[0] == r);
        assert(records.push(r).drop_first() =~= records);
    } else {
        assert(records.push(r)[0] == records[0]);
        assert(records.push(r).drop_first() =~= records.drop_first().push(r));
        lemma_roles_count_push(records.drop_first(), r, role);
    }
}

/// Role counts never exceed the record count.
proof fn lemma_roles_count_le(records: Seq<Record>, role: Seq<char>)
    ensures
        0 <= spec_roles_count(records, role) <= records.len(),
    decreases records.len(),
{
    if records.len() > 0 {
        lemma_roles_count_le(records.drop_first(), role);
    }
}

/// The role counts of a record list: for every role token, exactly the
/// number of messages with that role; non-messages count nowhere.
pub fn role_counts_of_records(records: &Vec<Record>) -> (table: CountTable)
    requires
        records@.len() <= u64::MAX,
    ensures
        table.wf(),
        forall|role: Seq<char>|
            count_in_pairs(table.pairs(), role) == spec_roles_count(records@, role),
{
    let mut table = CountTable::new();
    proof {
        assert forall|w: Seq<char>| count_in_pairs(table.pairs(), w) == 0 by {
            lemma_count_in_absent(table.pairs(), w);
        }
        assert(records@.take(0) =~= Seq::<Record>::empty());
    }
    let mut i: usize = 0;
    while i < records.len()
        invariant
            0 <= i <= records@.len(),
            records@.len() <= u64::MAX,
            table.wf(),
            forall|role: Seq<char>|
                count_in_pairs(table.pairs(), role) == spec_roles_count(
                    records@.take(i as int),
                    role,
                ),
        decreases records@.len() - i,
    {
        proof {
            assert(records@.take(i + 1) =~= records@.take(i as int).push(records@[i as int]));
            assert forall|role: Seq<char>|
                spec_roles_count(records@.take(i + 1), role) == spec_roles_count(
                    records@.take(i as int),
                    role,
                ) + (if !(records@[i as int] is Other) && spec_role_str(records@[i as int])
                    == role {
                    1int
                } else {
                    0int
                }) by {
                lemma_roles_count_push(records@.take(i as int), records@[i as int], role);
            }
            assert forall|role: Seq<char>|
                0 <= #[trigger] spec_roles_count(records@.take(i as int), role) <= i by {
                lemma_roles_count_le(records@.take(i as int), role);
            }
        }
        let rec = &records[i];
        if rec.is_message() {
            table.add(rec.role_str(), 1);
        }
        i += 1;
    }
    proof {
        assert(records@.take(records@.len() as int) =~= records@);
    }
    table
}

} // verus!
