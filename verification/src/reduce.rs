//! The result reducers: per-project counts and the condensed summary.
//!
//! Count mode groups hits by project and reports counts in descending order
//! with a grand total; the total always equals the number of enumerated hits
//! for the same query and filters. Summary mode additionally counts roles,
//! distinct sessions, the date range, and the most frequent topic words.

use vstd::prelude::*;

use crate::search::SearchHit;
use crate::tally::{
    count_in_pairs, distinct_keys, lemma_count_in_absent, lemma_count_in_at, sort_entries_desc,
    sorted_desc, sum_pairs, CountTable,
};
use crate::matcher::lowered_terms;
use crate::textops::{contains_seq, lex_lt, lower_of, word_runs};

verus! {

/// How many hits belong to this project.
pub open spec fn spec_project_count(hits: Seq<SearchHit>, p: Seq<char>) -> int
    decreases hits.len(),
{
    if hits.len() == 0 {
        0
    } else {
        (if hits[0].project@ == p {
            1int
        } else {
            0int
        }) + spec_project_count(hits.drop_first(), p)
    }
}

/// One more hit adds to its project alone.
proof fn lemma_project_count_push(hits: Seq<SearchHit>, h: SearchHit, p: Seq<char>)
    ensures
        spec_project_count(hits.push(h), p) == spec_project_count(hits, p) + (if h.project@ == p {
            1int
        } else {
            0int
        }),
    decreases hits.len(),
{
    if hits.len() == 0 {
        reveal_with_fuel(spec_project_count, 2);
        assert(hits.push(h)[0] == h);
        assert(hits.push(h).drop_first() =~= hits);
    } else {
        assert(hits.push(h)[0] == hits[0]);
        assert(hits.push(h).drop_first() =~= hits.drop_first().push(h));
        lemma_project_count_push(hits.drop_first(), h, p);
    }
}

/// No project counts more hits than there are.
proof fn lemma_project_count_le(hits: Seq<SearchHit>, p: Seq<char>)
    ensures
        0 <= spec_project_count(hits, p) <= hits.len(),
    decreases hits.len(),
{
    if hits.len() > 0 {
        lemma_project_count_le(hits.drop_first(), p);
    }
}

/// With distinct keys, entrywise counts transfer through a permutation.
proof fn lemma_counts_through_permutation(a: Seq<(String, u64)>, b: Seq<(String, u64)>)
    requires
        a.to_multiset() == b.to_multiset(),
        distinct_keys(a),
    ensures
        distinct_keys(b),
        forall|w: Seq<char>| count_in_pairs(b, w) == count_in_pairs(a, w),
{
    broadcast use vstd::seq_lib::group_to_multiset_ensures;
    broadcast use vstd::multiset::group_multiset_axioms;

    assert(a.no_duplicates()) by {
        assert forall|i: int, j: int|
            0 <= i < a.len() && 0 <= j < a.len() && i != j implies a[i] != a[j] by {
            if i < j {
                assert(a[i].0@ != a[j].0@);
            } else {
                assert(a[j].0@ != a[i].0@);
            }
        }
    }
    a.lemma_multiset_has_no_duplicates();
    b.lemma_multiset_has_no_duplicates_conv();
    assert forall|i: int, j: int| 0 <= i < j < b.len() implies b[i].0@ != b[j].0@ by {
        if b[i].0@ == b[j].0@ {
            assert(b.contains(b[i]));
            assert(a.to_multiset().count(b[i]) > 0);
            assert(a.contains(b[i]));
            let i2 = choose|i2: int| 0 <= i2 < a.len() && a[i2] == b[i];
            assert(b.contains(b[j]));
            assert(b.to_multiset().count(b[j]) > 0);
            assert(a.to_multiset().count(b[j]) > 0);
            assert(a.contains(b[j]));
            let j2 = choose|j2: int| 0 <= j2 < a.len() && a[j2] == b[j];
            assert(b[i] != b[j]);
            assert(i2 != j2);
            assert(a[i2].0@ == a[j2].0@);
        }
    }
    assert forall|w: Seq<char>| count_in_pairs(b, w) == count_in_pairs(a, w) by {
        crate::tally::lemma_key_index(a, w);
        crate::tally::lemma_key_index(b, w);
        let ka = crate::tally::key_index(a, w);
        let kb = crate::tally::key_index(b, w);
        if ka < a.len() {
            assert(a.contains(a[ka]));
            assert(b.to_multiset().count(a[ka]) > 0);
            assert(b.contains(a[ka]));
            let jb = choose|jb: int| 0 <= jb < b.len() && b[jb] == a[ka];
            assert(b[jb].0@ == w);
            assert(kb < b.len()) by {
                if kb == b.len() {
                    assert(b[jb].0@ != w);
                }
            }
            lemma_count_in_at(a, w, ka);
            lemma_count_in_at(b, w, kb);
            assert(a.contains(b[kb]));
            let ja = choose|ja: int| 0 <= ja < a.len() && a[ja] == b[kb];
            assert(a[ja].0@ == w);
            assert(ja == ka);
            assert(b[kb].1 == a[ka].1);
        } else {
            lemma_count_in_absent(a, w);
            assert(kb == b.len()) by {
                if kb < b.len() {
                    assert(a.to_multiset().count(b[kb]) > 0);
                    assert(a.contains(b[kb]));
                    let ja = choose|ja: int| 0 <= ja < a.len() && a[ja] == b[kb];
                    assert(a[ja].0@ == w);
                }
            }
            lemma_count_in_absent(b, w);
        }
    }
}

/// Groups hits by project: entries sorted by count descending, one entry per
/// project that has hits, each count exact; the grand total equals the
/// number of hits.
pub fn count_by_project(hits: &Vec<SearchHit>) -> (r: (Vec<(String, u64)>, u64))
    requires
        hits@.len() <= u64::MAX,
    ensures
        sorted_desc(r.0@),
        distinct_keys(r.0@),
        r.1 as int == hits@.len(),
        sum_pairs(r.0@) == hits@.len(),
        forall|p: Seq<char>| count_in_pairs(r.0@, p) == spec_project_count(hits@, p),
        forall|p: Seq<char>|
            spec_project_count(hits@, p) > 0 ==> (exists|j: int|
                0 <= j < r.0@.len() && (#[trigger] r.0@[j]).0@ == p),
{
    let mut table = CountTable::new();
    proof {
        assert forall|w: Seq<char>| count_in_pairs(table.pairs(), w) == 0 by {
            lemma_count_in_absent(table.pairs(), w);
        }
        assert(hits@.take(0) =~= Seq::<SearchHit>::empty());
    }
    let mut i: usize = 0;
    while i < hits.len()
        invariant
            0 <= i <= hits@.len(),
            hits@.len() <= u64::MAX,
            table.wf(),
            sum_pairs(table.pairs()) == i,
            forall|p: Seq<char>|
                count_in_pairs(table.pairs(), p) == spec_project_count(hits@.take(i as int), p),
        decreases hits@.len() - i,
    {
        proof {
            assert(hits@.take(i + 1) =~= hits@.take(i as int).push(hits@[i as int]));
            assert forall|p: Seq<char>|
                spec_project_count(hits@.take(i + 1), p) == spec_project_count(
                    hits@.take(i as int),
                    p,
                ) + (if hits@[i as int].project@ == p {
                    1int
                } else {
                    0int
                }) by {
                lemma_project_count_push(hits@.take(i as int), hits@[i as int], p);
            }
            assert forall|p: Seq<char>|
                0 <= #[trigger] spec_project_count(hits@.take(i as int), p) <= i by {
                lemma_project_count_le(hits@.take(i as int), p);
            }
        }
        table.add(hits[i].project.as_str(), 1);
        i += 1;
    }
    proof {
        assert(hits@.take(hits@.len() as int) =~= hits@);
    }
    let ghost tp = table.pairs();
    let entries = table.into_entries();
    let total_int = hits.len();
    let sorted = sort_entries_desc(entries);
    proof {
        lemma_counts_through_permutation(tp, sorted@);
        assert forall|p: Seq<char>|
            spec_project_count(hits@, p) > 0 implies (exists|j: int|
            0 <= j < sorted@.len() && (#[trigger] sorted@[j]).0@ == p) by {
            crate::tally::lemma_key_index(sorted@, p);
            let k = crate::tally::key_index(sorted@, p);
            if k == sorted@.len() {
                lemma_count_in_absent(sorted@, p);
            } else {
                assert(sorted@[k].0@ == p);
            }
        }
    }
    (sorted, total_int as u64)
}

/// The date of a timestamp: its first ten characters, or all of it if
/// shorter.
pub open spec fn spec_date_of(ts: Seq<char>) -> Seq<char> {
    if ts.len() <= 10 {
        ts
    } else {
        ts.take(10)
    }
}

/// The dates of the hits that carry timestamps, in hit order.
pub open spec fn spec_hit_dates(hits: Seq<SearchHit>) -> Seq<Seq<char>>
    decreases hits.len(),
{
    if hits.len() == 0 {
        Seq::empty()
    } else {
        (match hits[0].record {
            crate::models::Record::Other => Seq::<Seq<char>>::empty(),
            _ => match crate::models::spec_message_of(hits[0].record).timestamp {
                Some(ts) => seq![spec_date_of(ts@)],
                None => Seq::<Seq<char>>::empty(),
            },
        }) + spec_hit_dates(hits.drop_first())
    }
}

/// One more hit appends its date, if it has one.
proof fn lemma_hit_dates_push(hits: Seq<SearchHit>, h: SearchHit)
    ensures
        spec_hit_dates(hits.push(h)) == spec_hit_dates(hits) + (match h.record {
            crate::models::Record::Other => Seq::<Seq<char>>::empty(),
            _ => match crate::models::spec_message_of(h.record).timestamp {
                Some(ts) => seq![spec_date_of(ts@)],
                None => Seq::<Seq<char>>::empty(),
            },
        }),
    decreases hits.len(),
{
    if hits.len() == 0 {
        reveal_with_fuel(spec_hit_dates, 2);
        assert(hits.push(h)[0] == h);
        assert(hits.push(h).drop_first() =~= hits);
        assert(spec_hit_dates(hits.push(h)) =~~= spec_hit_dates(hits) + (match h.record {
            crate::models::Record::Other => Seq::<Seq<char>>::empty(),
            _ => match crate::models::spec_message_of(h.record).timestamp {
                Some(ts) => seq![spec_date_of(ts@)],
                None => Seq::<Seq<char>>::empty(),
            },
        }));
    } else {
        assert(hits.push(h)[0] == hits[0]);
        assert(hits.push(h).drop_first() =~= hits.drop_first().push(h));
        lemma_hit_dates_push(hits.drop_first(), h);
        assert(spec_hit_dates(hits.push(h)) =~~= spec_hit_dates(hits) + (match h.record {
            crate::models::Record::Other => Seq::<Seq<char>>::empty(),
            _ => match crate::models::spec_message_of(h.record).timestamp {
                Some(ts) => seq![spec_date_of(ts@)],
                None => Seq::<Seq<char>>::empty(),
            },
        }));
    }
}

/// The earliest and latest hit dates, lexicographically, if any hit carries
/// a timestamp.
pub fn date_range(hits: &Vec<SearchHit>) -> (r: (Option<String>, Option<String>))
    ensures
        ({
            let dates = spec_hit_dates(hits@);
            &&& (r.0 is Some) == (dates.len() > 0)
            &&& (r.1 is Some) == (dates.len() > 0)
            &&& (r.0 matches Some(e) ==> dates.contains(e@) && (forall|i: int|
                0 <= i < dates.len() ==> !lex_lt(#[trigger] dates[i], e@)))
            &&& (r.1 matches Some(l) ==> dates.contains(l@) && (forall|i: int|
                0 <= i < dates.len() ==> !lex_lt(l@, #[trigger] dates[i])))
        }),
{
    let mut earliest: Option<String> = None;
    let mut latest: Option<String> = None;
    let mut i: usize = 0;
    proof {
        assert(hits@.take(0) =~= Seq::<SearchHit>::empty());
    }
    while i < hits.len()
        invariant
            0 <= i <= hits@.len(),
            ({
                let dates = spec_hit_dates(hits@.take(i as int));
                &&& (earliest is Some) == (dates.len() > 0)
                &&& (latest is Some) == (dates.len() > 0)
                &&& (earliest matches Some(e) ==> dates.contains(e@) && (forall|k: int|
                    0 <= k < dates.len() ==> !lex_lt(#[trigger] dates[k], e@)))
                &&& (latest matches Some(l) ==> dates.contains(l@) && (forall|k: int|
                    0 <= k < dates.len() ==> !lex_lt(l@, #[trigger] dates[k])))
            }),
        decreases hits@.len() - i,
    {
        let ghost prefix = hits@.take(i as int);
        let ghost dates0 = spec_hit_dates(prefix);
        proof {
            assert(hits@.take(i + 1) =~= prefix.push(hits@[i as int]));
            lemma_hit_dates_push(prefix, hits@[i as int]);
        }
        let hit = &hits[i];
        match hit.record.as_message_record() {
            Some(msg) => {
                match &msg.timestamp {
                    Some(ts) => {
                        let date_chars = crate::textops::take_chars(ts.as_str(), 10);
                        let date = crate::textops::string_from_chars(&date_chars);
                        proof {
                            assert(date@ == spec_date_of(ts@));
                            let dates1 = spec_hit_dates(hits@.take(i + 1));
                            assert(dates1 =~= dates0.push(date@));
                            assert(dates1[dates1.len() - 1] == date@);
                        }
                        let new_earliest = match &earliest {
                            Some(e) => {
                                if crate::textops::str_lt(date.as_str(), e.as_str()) {
                                    Some(date.clone())
                                } else {
                                    Some(e.clone())
                                }
                            },
                            None => Some(date.clone()),
                        };
                        let new_latest = match &latest {
                            Some(l) => {
                                if crate::textops::str_lt(l.as_str(), date.as_str()) {
                                    Some(date.clone())
                                } else {
                                    Some(l.clone())
                                }
                            },
                            None => Some(date.clone()),
                        };
                        proof {
                            let dates1 = spec_hit_dates(hits@.take(i + 1));
                            assert(dates1 == dates0.push(date@));
                            match earliest {
                                Some(e) => {
                                    lemma_min_update(dates0, date@, e@, new_earliest.unwrap()@);
                                },
                                None => {
                                    assert(dates0.len() == 0);
                                    assert(dates1[0] == date@);
                                    assert(dates1.contains(date@));
                                    lemma_lex_irrefl(date@);
                                },
                            }
                            match latest {
                                Some(l) => {
                                    lemma_max_update(dates0, date@, l@, new_latest.unwrap()@);
                                },
                                None => {
                                    assert(dates1[0] == date@);
                                    assert(dates1.contains(date@));
                                    lemma_lex_irrefl(date@);
                                },
                            }
                        }
                        earliest = new_earliest;
                        latest = new_latest;
                    },
                    None => {
                        proof {
                            assert(spec_hit_dates(hits@.take(i + 1)) =~= dates0);
                        }
                    },
                }
            },
            None => {
                proof {
                    assert(spec_hit_dates(hits@.take(i + 1)) =~= dates0);
                }
            },
        }
        i += 1;
    }
    proof {
        assert(hits@.take(hits@.len() as int) =~= hits@);
    }
    (earliest, latest)
}

/// Nothing is lexicographically below itself.
pub proof fn lemma_lex_irrefl(a: Seq<char>)
    ensures
        !lex_lt(a, a),
    decreases a.len(),
{
    if a.len() > 0 {
        lemma_lex_irrefl(a.drop_first());
    }
}

/// Lexicographic order is transitive.
pub proof fn lemma_lex_trans(a: Seq<char>, b: Seq<char>, c: Seq<char>)
    requires
        lex_lt(a, b),
        lex_lt(b, c),
    ensures
        lex_lt(a, c),
    decreases a.len(),
{
    if a.len() > 0 && b.len() > 0 && c.len() > 0 && a[0] == b[0] && b[0] == c[0] {
        lemma_lex_trans(a.drop_first(), b.drop_first(), c.drop_first());
    }
}

/// How a running lexicographic minimum absorbs one more date.
proof fn lemma_min_update(dates0: Seq<Seq<char>>, d: Seq<char>, e0: Seq<char>, e1: Seq<char>)
    requires
        dates0.contains(e0),
        forall|k: int| 0 <= k < dates0.len() ==> !lex_lt(#[trigger] dates0[k], e0),
        e1 == (if lex_lt(d, e0) {
            d
        } else {
            e0
        }),
    ensures
        dates0.push(d).contains(e1),
        forall|k: int|
            0 <= k < dates0.push(d).len() ==> !lex_lt(#[trigger] dates0.push(d)[k], e1),
{
    let dates1 = dates0.push(d);
    assert(dates1[dates0.len() as int] == d);
    if lex_lt(d, e0) {
        assert(dates1.contains(d));
        assert forall|k: int| 0 <= k < dates1.len() implies !lex_lt(
            #[trigger] dates1[k],
            d,
        ) by {
            if k < dates0.len() {
                assert(dates1[k] == dates0[k]);
                if lex_lt(dates0[k], d) {
                    lemma_lex_trans(dates0[k], d, e0);
                }
            } else {
                lemma_lex_irrefl(d);
            }
        }
    } else {
        let w = choose|w: int| 0 <= w < dates0.len() && dates0[w] == e0;
        assert(dates1[w] == e0);
        assert(dates1.contains(e0));
        assert forall|k: int| 0 <= k < dates1.len() implies !lex_lt(
            #[trigger] dates1[k],
            e0,
        ) by {
            if k < dates0.len() {
                assert(dates1[k] == dates0[k]);
            }
        }
    }
}

/// How a running lexicographic maximum absorbs one more date.
proof fn lemma_max_update(dates0: Seq<Seq<char>>, d: Seq<char>, l0: Seq<char>, l1: Seq<char>)
    requires
        dates0.contains(l0),
        forall|k: int| 0 <= k < dates0.len() ==> !lex_lt(l0, #[trigger] dates0[k]),
        l1 == (if lex_lt(l0, d) {
            d
        } else {
            l0
        }),
    ensures
        dates0.push(d).contains(l1),
        forall|k: int|
            0 <= k < dates0.push(d).len() ==> !lex_lt(l1, #[trigger] dates0.push(d)[k]),
{
    let dates1 = dates0.push(d);
    assert(dates1[dates0.len() as int] == d);
    if lex_lt(l0, d) {
        assert(dates1.contains(d));
        assert forall|k: int| 0 <= k < dates1.len() implies !lex_lt(
            d,
            #[trigger] dates1[k],
        ) by {
            if k < dates0.len() {
                assert(dates1[k] == dates0[k]);
                if lex_lt(d, dates0[k]) {
                    lemma_lex_trans(l0, d, dates0[k]);
                }
            } else {
                lemma_lex_irrefl(d);
            }
        }
    } else {
        let w = choose|w: int| 0 <= w < dates0.len() && dates0[w] == l0;
        assert(dates1[w] == l0);
        assert(dates1.contains(l0));
        assert forall|k: int| 0 <= k < dates1.len() implies !lex_lt(
            l0,
            #[trigger] dates1[k],
        ) by {
            if k < dates0.len() {
                assert(dates1[k] == dates0[k]);
            }
        }
    }
}

/// A word the topic extraction skips.
pub open spec fn is_stop_word(w: Seq<char>) -> bool {
    w == "the"@ || w == "and"@ || w == "for"@ || w == "that"@ || w == "this"@ || w == "with"@ || w == "from"@ || w == "are"@ || w == "was"@ || w == "were"@ || w == "been"@ || w == "have"@ || w == "has"@ || w == "had"@ || w == "not"@ || w == "but"@ || w == "what"@ || w == "all"@ || w == "can"@ || w == "her"@ || w == "his"@ || w == "one"@ || w == "our"@ || w == "out"@ || w == "you"@ || w == "your"@ || w == "which"@ || w == "their"@ || w == "them"@ || w == "then"@ || w == "than"@ || w == "into"@ || w == "could"@ || w == "would"@ || w == "there"@ || w == "about"@ || w == "just"@ || w == "like"@ || w == "some"@ || w == "also"@ || w == "more"@ || w == "when"@ || w == "will"@ || w == "each"@ || w == "make"@ || w == "way"@ || w == "she"@ || w == "how"@ || w == "its"@ || w == "may"@ || w == "use"@ || w == "used"@ || w == "using"@ || w == "let"@ || w == "get"@ || w == "got"@ || w == "did"@ || w == "does"@ || w == "done"@ || w == "any"@ || w == "very"@ || w == "here"@ || w == "where"@ || w == "should"@ || w == "need"@ || w == "don"@ || w == "doesn"@ || w == "isn"@ || w == "it's"@ || w == "i'll"@ || w == "i'm"@ || w == "we're"@ || w == "they"@ || w == "that's"@ || w == "file"@ || w == "line"@ || w == "code"@ || w == "run"@ || w == "set"@ || w == "new"@ || w == "see"@ || w == "now"@ || w == "try"@ || w == "want"@
}

/// Whether a case-folded word is in the stop list.
fn stop_word(w: &str) -> (r: bool)
    ensures
        r == is_stop_word(w@),
{
    crate::textops::str_eq(w, "the") || crate::textops::str_eq(w, "and") || crate::textops::str_eq(w, "for") || crate::textops::str_eq(w, "that") || crate::textops::str_eq(w, "this") || crate::textops::str_eq(w, "with") || crate::textops::str_eq(w, "from") || crate::textops::str_eq(w, "are") || crate::textops::str_eq(w, "was") || crate::textops::str_eq(w, "were") || crate::textops::str_eq(w, "been") || crate::textops::str_eq(w, "have") || crate::textops::str_eq(w, "has") || crate::textops::str_eq(w, "had") || crate::textops::str_eq(w, "not") || crate::textops::str_eq(w, "but") || crate::textops::str_eq(w, "what") || crate::textops::str_eq(w, "all") || crate::textops::str_eq(w, "can") || crate::textops::str_eq(w, "her") || crate::textops::str_eq(w, "his") || crate::textops::str_eq(w, "one") || crate::textops::str_eq(w, "our") || crate::textops::str_eq(w, "out") || crate::textops::str_eq(w, "you") || crate::textops::str_eq(w, "your") || crate::textops::str_eq(w, "which") || crate::textops::str_eq(w, "their") || crate::textops::str_eq(w, "them") || crate::textops::str_eq(w, "then") || crate::textops::str_eq(w, "than") || crate::textops::str_eq(w, "into") || crate::textops::str_eq(w, "could") || crate::textops::str_eq(w, "would") || crate::textops::str_eq(w, "there") || crate::textops::str_eq(w, "about") || crate::textops::str_eq(w, "just") || crate::textops::str_eq(w, "like") || crate::textops::str_eq(w, "some") || crate::textops::str_eq(w, "also") || crate::textops::str_eq(w, "more") || crate::textops::str_eq(w, "when") || crate::textops::str_eq(w, "will") || crate::textops::str_eq(w, "each") || crate::textops::str_eq(w, "make") || crate::textops::str_eq(w, "way") || crate::textops::str_eq(w, "she") || crate::textops::str_eq(w, "how") || crate::textops::str_eq(w, "its") || crate::textops::str_eq(w, "may") || crate::textops::str_eq(w, "use") || crate::textops::str_eq(w, "used") || crate::textops::str_eq(w, "using") || crate::textops::str_eq(w, "let") || crate::textops::str_eq(w, "get") || crate::textops::str_eq(w, "got") || crate::textops::str_eq(w, "did") || crate::textops::str_eq(w, "does") || crate::textops::str_eq(w, "done") || crate::textops::str_eq(w, "any") || crate::textops::str_eq(w, "very") || crate::textops::str_eq(w, "here") || crate::textops::str_eq(w, "where") || crate::textops::str_eq(w, "should") || crate::textops::str_eq(w, "need") || crate::textops::str_eq(w, "don") || crate::textops::str_eq(w, "doesn") || crate::textops::str_eq(w, "isn") || crate::textops::str_eq(w, "it's") || crate::textops::str_eq(w, "i'll") || crate::textops::str_eq(w, "i'm") || crate::textops::str_eq(w, "we're") || crate::textops::str_eq(w, "they") || crate::textops::str_eq(w, "that's") || crate::textops::str_eq(w, "file") || crate::textops::str_eq(w, "line") || crate::textops::str_eq(w, "code") || crate::textops::str_eq(w, "run") || crate::textops::str_eq(w, "set") || crate::textops::str_eq(w, "new") || crate::textops::str_eq(w, "see") || crate::textops::str_eq(w, "now") || crate::textops::str_eq(w, "try") || crate::textops::str_eq(w, "want")
}

/// How many hits carry this role token.
pub open spec fn spec_hit_role_count(hits: Seq<SearchHit>, role: Seq<char>) -> int
    decreases hits.len(),
{
    if hits.len() == 0 {
        0
    } else {
        (if crate::models::spec_role_str(hits[0].record) == role {
            1int
        } else {
            0int
        }) + spec_hit_role_count(hits.drop_first(), role)
    }
}

/// One more hit adds to its role alone.
proof fn lemma_hit_role_count_push(hits: Seq<SearchHit>, h: SearchHit, role: Seq<char>)
    ensures
        spec_hit_role_count(hits.push(h), role) == spec_hit_role_count(hits, role) + (
        if crate::models::spec_role_str(h.record) == role {
            1int
        } else {
            0int
        }),
    decreases hits.len(),
{
    if hits.len() == 0 {
        reveal_with_fuel(spec_hit_role_count, 2);
        assert(hits.push(h)[0] == h);
        assert(hits.push(h).drop_first() =~= hits);
    } else {
        assert(hits.push(h)[0] == hits[0]);
        assert(hits.push(h).drop_first() =~= hits.drop_first().push(h));
        lemma_hit_role_count_push(hits.drop_first(), h, role);
    }
}

/// No role counts more hits than there are.
proof fn lemma_hit_role_count_le(hits: Seq<SearchHit>, role: Seq<char>)
    ensures
        0 <= spec_hit_role_count(hits, role) <= hits.len(),
    decreases hits.len(),
{
    if hits.len() > 0 {
        lemma_hit_role_count_le(hits.drop_first(), role);
    }
}

/// Groups hits by role: entries sorted by count descending, each count
/// exact.
pub fn count_by_role(hits: &Vec<SearchHit>) -> (r: Vec<(String, u64)>)
    requires
        hits@.len() <= u64::MAX,
    ensures
        sorted_desc(r@),
        distinct_keys(r@),
        forall|role: Seq<char>| count_in_pairs(r@, role) == spec_hit_role_count(hits@, role),
{
    let mut table = CountTable::new();
    proof {
        assert forall|w: Seq<char>| count_in_pairs(table.pairs(), w) == 0 by {
            lemma_count_in_absent(table.pairs(), w);
        }
        assert(hits@.take(0) =~= Seq::<SearchHit>::empty());
    }
    let mut i: usize = 0;
    while i < hits.len()
        invariant
            0 <= i <= hits@.len(),
            hits@.len() <= u64::MAX,
            table.wf(),
            forall|role: Seq<char>|
                count_in_pairs(table.pairs(), role) == spec_hit_role_count(
                    hits@.take(i as int),
                    role,
                ),
        decreases hits@.len() - i,
    {
        proof {
            assert(hits@.take(i + 1) =~= hits@.take(i as int).push(hits@[i as int]));
            assert forall|role: Seq<char>|
                spec_hit_role_count(hits@.take(i + 1), role) == spec_hit_role_count(
                    hits@.take(i as int),
                    role,
                ) + (if crate::models::spec_role_str(hits@[i as int].record) == role {
                    1int
                } else {
                    0int
                }) by {
                lemma_hit_role_count_push(hits@.take(i as int), hits@[i as int], role);
            }
            assert forall|role: Seq<char>|
                0 <= #[trigger] spec_hit_role_count(hits@.take(i as int), role) <= i by {
                lemma_hit_role_count_le(hits@.take(i as int), role);
            }
        }
        table.add(hits[i].record.role_str(), 1);
        i += 1;
    }
    proof {
        assert(hits@.take(hits@.len() as int) =~= hits@);
    }
    let ghost tp = table.pairs();
    let sorted = sort_entries_desc(table.into_entries());
    proof {
        lemma_counts_through_permutation(tp, sorted@);
    }
    sorted
}

/// The combined project-and-session key of one hit.
pub open spec fn spec_session_key(h: SearchHit) -> Seq<char> {
    h.project@ + ":"@ + h.session_id@
}

/// The combined keys of all hits, in order.
pub open spec fn spec_session_keys(hits: Seq<SearchHit>) -> Seq<Seq<char>>
    decreases hits.len(),
{
    if hits.len() == 0 {
        Seq::empty()
    } else {
        seq![spec_session_key(hits[0])] + spec_session_keys(hits.drop_first())
    }
}

/// One more hit appends its key.
proof fn lemma_session_keys_push(hits: Seq<SearchHit>, h: SearchHit)
    ensures
        spec_session_keys(hits.push(h)) == spec_session_keys(hits).push(spec_session_key(h)),
    decreases hits.len(),
{
    if hits.len() == 0 {
        reveal_with_fuel(spec_session_keys, 2);
        assert(hits.push(h)[0] == h);
        assert(hits.push(h).drop_first() =~= hits);
        assert(spec_session_keys(hits.push(h)) =~~= spec_session_keys(hits).push(
            spec_session_key(h),
        ));
    } else {
        assert(hits.push(h)[0] == hits[0]);
        assert(hits.push(h).drop_first() =~= hits.drop_first().push(h));
        lemma_session_keys_push(hits.drop_first(), h);
        assert(spec_session_keys(hits.push(h)) =~~= spec_session_keys(hits).push(
            spec_session_key(h),
        ));
    }
}

/// The key views of a table's entries, in order.
pub open spec fn pairs_keys(s: Seq<(String, u64)>) -> Seq<Seq<char>> {
    s.map_values(|e: (String, u64)| e.0@)
}

/// How many distinct project-and-session pairs the hits touch.
pub fn distinct_session_count(hits: &Vec<SearchHit>) -> (r: u64)
    requires
        hits@.len() <= u64::MAX,
    ensures
        r as int == spec_session_keys(hits@).to_set().len(),
{
    broadcast use vstd::set::group_set_axioms;

    let mut table = CountTable::new();
    proof {
        assert(hits@.take(0) =~= Seq::<SearchHit>::empty());
        assert(pairs_keys(table.pairs()) =~= Seq::<Seq<char>>::empty());
        assert(pairs_keys(table.pairs()).to_set() =~= spec_session_keys(
            hits@.take(0),
        ).to_set());
        assert forall|w: Seq<char>| count_in_pairs(table.pairs(), w) == 0 by {
            lemma_count_in_absent(table.pairs(), w);
        }
    }
    let mut i: usize = 0;
    while i < hits.len()
        invariant
            0 <= i <= hits@.len(),
            hits@.len() <= u64::MAX,
            table.wf(),
            sum_pairs(table.pairs()) <= i,
            pairs_keys(table.pairs()).to_set() == spec_session_keys(hits@.take(i as int)).to_set(),
        decreases hits@.len() - i,
    {
        broadcast use vstd::set::group_set_axioms;

        let hit = &hits[i];
        let mut key = String::new();
        key.append(hit.project.as_str());
        key.append(":");
        key.append(hit.session_id.as_str());
        proof {
            assert(key@ == spec_session_key(hits@[i as int]));
            assert(hits@.take(i + 1) =~= hits@.take(i as int).push(hits@[i as int]));
            lemma_session_keys_push(hits@.take(i as int), hits@[i as int]);
            lemma_sum_count_le(table.pairs(), key@);
        }
        let ghost before = table.pairs();
        table.add(key.as_str(), 1);
        proof {
            let ka = crate::tally::key_index(before, key@);
            crate::tally::lemma_key_index(before, key@);
            let keys0 = pairs_keys(before);
            let keys1 = pairs_keys(table.pairs());
            let sk1 = spec_session_keys(hits@.take(i + 1));
            let sk0 = spec_session_keys(hits@.take(i as int));
            assert(sk1 =~= sk0.push(key@));
            if ka < before.len() {
                assert(table.pairs() == before.update(
                    ka,
                    (before[ka].0, (before[ka].1 + 1) as u64),
                ));
                assert(keys1 =~~= keys0);
                assert(keys0.contains(key@)) by {
                    assert(keys0[ka] == before[ka].0@);
                }
                assert(keys1.to_set() =~= sk1.to_set()) by {
                    assert forall|x: Seq<char>| sk1.to_set().contains(x) implies keys1.to_set().contains(x) by {
                        if sk1.contains(x) {
                            let j = choose|j: int| 0 <= j < sk1.len() && sk1[j] == x;
                            if j < sk0.len() {
                                assert(sk0.contains(x));
                            } else {
                                assert(x == key@);
                            }
                        }
                    }
                    assert forall|x: Seq<char>| keys1.to_set().contains(x) implies sk1.to_set().contains(x) by {
                        if keys0.contains(x) {
                            assert(sk0.to_set().contains(x));
                            let j = choose|j: int| 0 <= j < sk0.len() && sk0[j] == x;
                            assert(sk1[j] == x);
                            assert(sk1.contains(x));
                        }
                    }
                }
            } else {
                assert(table.pairs().len() == before.len() + 1);
                assert(table.pairs().take(before.len() as int) == before);
                assert(table.pairs().last().0@ == key@);
                assert(keys1 =~~= keys0.push(key@));
                assert(keys1.to_set() =~= sk1.to_set()) by {
                    assert forall|x: Seq<char>| sk1.to_set().contains(x) implies keys1.to_set().contains(x) by {
                        if sk1.contains(x) {
                            let j = choose|j: int| 0 <= j < sk1.len() && sk1[j] == x;
                            if j < sk0.len() {
                                assert(sk0.contains(x));
                                assert(keys0.to_set().contains(x));
                                let j2 = choose|j2: int| 0 <= j2 < keys0.len() && keys0[j2] == x;
                                assert(keys1[j2] == x);
                            } else {
                                assert(keys1[keys0.len() as int] == key@);
                            }
                        }
                    }
                    assert forall|x: Seq<char>| keys1.to_set().contains(x) implies sk1.to_set().contains(x) by {
                        if keys1.contains(x) {
                            let j = choose|j: int| 0 <= j < keys1.len() && keys1[j] == x;
                            if j < keys0.len() {
                                assert(keys0.contains(x));
                                assert(sk0.to_set().contains(x));
                                let j2 = choose|j2: int| 0 <= j2 < sk0.len() && sk0[j2] == x;
                                assert(sk1[j2] == x);
                            } else {
                                assert(x == key@);
                                assert(sk1[sk1.len() - 1] == key@);
                            }
                        }
                    }
                }
            }
        }
        i += 1;
    }
    proof {
        assert(hits@.take(hits@.len() as int) =~= hits@);
    }
    let n = table.len();
    proof {
        let keys = pairs_keys(table.pairs());
        assert(keys.no_duplicates()) by {
            assert forall|a: int, b: int|
                0 <= a < b < keys.len() implies keys[a] != keys[b] by {
                assert(table.pairs()[a].0@ != table.pairs()[b].0@);
            }
        }
        keys.unique_seq_to_set();
    }
    n as u64
}

/// A key counts no more than the whole table sums.
proof fn lemma_sum_count_le(s: Seq<(String, u64)>, key: Seq<char>)
    ensures
        count_in_pairs(s, key) <= sum_pairs(s),
        0 <= sum_pairs(s),
    decreases s.len(),
{
    if s.len() > 0 {
        lemma_sum_count_le(s.drop_first(), key);
    }
}

/// Whether a word run qualifies as a topic word: at least four characters
/// after case folding, not a stop word, and not containing any query term.
pub open spec fn topic_qualifies(run: Seq<char>, queries_lower: Seq<Seq<char>>) -> bool {
    &&& lower_of(run).len() >= 4
    &&& !is_stop_word(lower_of(run))
    &&& (forall|qi: int|
        0 <= qi < queries_lower.len() ==> !contains_seq(lower_of(run), #[trigger] queries_lower[qi]))
}

/// How many qualifying runs, case-folded, equal `w`.
pub open spec fn spec_topic_occurrences(
    runs: Seq<Seq<char>>,
    w: Seq<char>,
    ql: Seq<Seq<char>>,
) -> int
    decreases runs.len(),
{
    if runs.len() == 0 {
        0
    } else {
        (if topic_qualifies(runs[0], ql) && lower_of(runs[0]) == w {
            1int
        } else {
            0int
        }) + spec_topic_occurrences(runs.drop_first(), w, ql)
    }
}

/// One more run adds its own occurrence, if it qualifies.
proof fn lemma_topic_occurrences_push(
    runs: Seq<Seq<char>>,
    x: Seq<char>,
    w: Seq<char>,
    ql: Seq<Seq<char>>,
)
    ensures
        spec_topic_occurrences(runs.push(x), w, ql) == spec_topic_occurrences(runs, w, ql) + (
        if topic_qualifies(x, ql) && lower_of(x) == w {
            1int
        } else {
            0int
        }),
    decreases runs.len(),
{
    if runs.len() == 0 {
        reveal_with_fuel(spec_topic_occurrences, 2);
        assert(runs.push(x)[0] == x);
        assert(runs.push(x).drop_first() =~= runs);
    } else {
        assert(runs.push(x)[0] == runs[0]);
        assert(runs.push(x).drop_first() =~= runs.drop_first().push(x));
        lemma_topic_occurrences_push(runs.drop_first(), x, w, ql);
    }
}

/// No topic word occurs more often than there are runs.
proof fn lemma_topic_occurrences_le(runs: Seq<Seq<char>>, w: Seq<char>, ql: Seq<Seq<char>>)
    ensures
        0 <= spec_topic_occurrences(runs, w, ql) <= runs.len(),
    decreases runs.len(),
{
    if runs.len() > 0 {
        lemma_topic_occurrences_le(runs.drop_first(), w, ql);
    }
}

/// A prefix never counts more than the whole.
proof fn lemma_topic_occurrences_prefix_le(
    runs: Seq<Seq<char>>,
    i: int,
    w: Seq<char>,
    ql: Seq<Seq<char>>,
)
    requires
        0 <= i <= runs.len(),
    ensures
        spec_topic_occurrences(runs.take(i), w, ql) <= spec_topic_occurrences(runs, w, ql),
    decreases runs.len() - i,
{
    if i < runs.len() {
        assert(runs.take(i + 1) =~= runs.take(i).push(runs[i]));
        lemma_topic_occurrences_push(runs.take(i), runs[i], w, ql);
        lemma_topic_occurrences_prefix_le(runs, i + 1, w, ql);
    } else {
        assert(runs.take(i) =~= runs);
    }
}

/// The topic word runs of one hit: the runs of its text, underscores kept.
pub open spec fn spec_hit_topic_runs(h: SearchHit) -> Seq<Seq<char>> {
    if h.record is Other {
        Seq::empty()
    } else {
        word_runs(
            crate::models::spec_text_content(crate::models::spec_message_of(h.record), true),
            true,
        )
    }
}

/// How often a case-folded topic word occurs across all hits.
pub open spec fn spec_topics_count(hits: Seq<SearchHit>, w: Seq<char>, ql: Seq<Seq<char>>) -> int
    decreases hits.len(),
{
    if hits.len() == 0 {
        0
    } else {
        spec_topic_occurrences(spec_hit_topic_runs(hits[0]), w, ql) + spec_topics_count(
            hits.drop_first(),
            w,
            ql,
        )
    }
}

/// One more hit adds its own occurrences.
proof fn lemma_topics_count_push(hits: Seq<SearchHit>, h: SearchHit, w: Seq<char>, ql: Seq<Seq<char>>)
    ensures
        spec_topics_count(hits.push(h), w, ql) == spec_topics_count(hits, w, ql)
            + spec_topic_occurrences(spec_hit_topic_runs(h), w, ql),
    decreases hits.len(),
{
    if hits.len() == 0 {
        reveal_with_fuel(spec_topics_count, 2);
        assert(hits.push(h)[0] == h);
        assert(hits.push(h).drop_first() =~= hits);
    } else {
        assert(hits.push(h)[0] == hits[0]);
        assert(hits.push(h).drop_first() =~= hits.drop_first().push(h));
        lemma_topics_count_push(hits.drop_first(), h, w, ql);
    }
}

/// Topic counts never go negative.
proof fn lemma_topics_count_nonneg(hits: Seq<SearchHit>, w: Seq<char>, ql: Seq<Seq<char>>)
    ensures
        0 <= spec_topics_count(hits, w, ql),
    decreases hits.len(),
{
    if hits.len() > 0 {
        lemma_topic_occurrences_le(spec_hit_topic_runs(hits[0]), w, ql);
        lemma_topics_count_nonneg(hits.drop_first(), w, ql);
    }
}

/// A prefix never counts more than the whole hit list.
proof fn lemma_topics_count_prefix_le(hits: Seq<SearchHit>, i: int, w: Seq<char>, ql: Seq<Seq<char>>)
    requires
        0 <= i <= hits.len(),
    ensures
        spec_topics_count(hits.take(i), w, ql) <= spec_topics_count(hits, w, ql),
    decreases hits.len() - i,
{
    if i < hits.len() {
        assert(hits.take(i + 1) =~= hits.take(i).push(hits[i]));
        lemma_topics_count_push(hits.take(i), hits[i], w, ql);
        lemma_topic_occurrences_le(spec_hit_topic_runs(hits[i]), w, ql);
        lemma_topics_count_prefix_le(hits, i + 1, w, ql);
    } else {
        assert(hits.take(i) =~= hits);
    }
}

/// Counts one hit's qualifying topic words into the table.
fn count_topics_of_hit(table: &mut CountTable, hit: &SearchHit, lowered: &Vec<String>)
    requires
        old(table).wf(),
        forall|w: Seq<char>|
            count_in_pairs(old(table).pairs(), w) + spec_topic_occurrences(
                spec_hit_topic_runs(*hit),
                w,
                lowered.deep_view(),
            ) <= u64::MAX,
    ensures
        final (table).wf(),
        forall|w: Seq<char>|
            count_in_pairs(final (table).pairs(), w) == count_in_pairs(old(table).pairs(), w)
                + spec_topic_occurrences(spec_hit_topic_runs(*hit), w, lowered.deep_view()),
{
    let ghost ql = lowered.deep_view();
    let ghost base = table.pairs();
    let msg = match hit.record.as_message_record() {
        Some(m) => m,
        None => {
            proof {
                assert(spec_hit_topic_runs(*hit) =~= Seq::<Seq<char>>::empty());
            }
            return ;
        },
    };
    let text = msg.text_content();
    let tokens = crate::textops::tokenize(text.as_str(), true);
    let ghost runs = spec_hit_topic_runs(*hit);
    proof {
        assert(tokens.deep_view() == runs);
    }
    let mut i: usize = 0;
    proof {
        assert(runs.take(0) =~= Seq::<Seq<char>>::empty());
    }
    while i < tokens.len()
        invariant
            tokens.deep_view() == runs,
            lowered.deep_view() == ql,
            runs.len() == tokens@.len(),
            forall|j: int| 0 <= j < tokens@.len() ==> runs[j] == #[trigger] tokens@[j]@,
            0 <= i <= tokens@.len(),
            table.wf(),
            forall|w: Seq<char>|
                count_in_pairs(base, w) + spec_topic_occurrences(runs, w, ql) <= u64::MAX,
            forall|w: Seq<char>|
                count_in_pairs(table.pairs(), w) == count_in_pairs(base, w)
                    + spec_topic_occurrences(runs.take(i as int), w, ql),
        decreases tokens@.len() - i,
    {
        proof {
            assert(runs.take(i + 1) =~= runs.take(i as int).push(runs[i as int]));
            assert forall|w: Seq<char>|
                spec_topic_occurrences(runs.take(i + 1), w, ql) == spec_topic_occurrences(
                    runs.take(i as int),
                    w,
                    ql,
                ) + (if topic_qualifies(runs[i as int], ql) && lower_of(runs[i as int]) == w {
                    1int
                } else {
                    0int
                }) by {
                lemma_topic_occurrences_push(runs.take(i as int), runs[i as int], w, ql);
            }
            assert forall|w: Seq<char>|
                0 <= #[trigger] spec_topic_occurrences(runs.take(i as int), w, ql) <= i by {
                lemma_topic_occurrences_le(runs.take(i as int), w, ql);
            }
        }
        let token = &tokens[i];
        let low = crate::textops::to_lowercase(token.as_str());
        let low_chars = crate::textops::chars_of(low.as_str());
        let mut qualifies = low_chars.len() >= 4 && !stop_word(low.as_str());
        if qualifies {
            let mut qi: usize = 0;
            while qi < lowered.len() && qualifies
                invariant
                    lowered.deep_view() == ql,
                    ql.len() == lowered@.len(),
                    forall|k: int| 0 <= k < lowered@.len() ==> ql[k] == #[trigger] lowered@[k]@,
                    low_chars@ == low@,
                    low@ == lower_of(runs[i as int]),
                    i < runs.len(),
                    0 <= qi <= lowered@.len(),
                    qualifies ==> (forall|k: int|
                        0 <= k < qi ==> !contains_seq(lower_of(runs[i as int]), #[trigger] ql[k])),
                    !qualifies ==> !topic_qualifies(runs[i as int], ql),
                decreases lowered@.len() - qi,
            {
                let needle = crate::textops::chars_of(lowered[qi].as_str());
                if crate::textops::contains_chars(&low_chars, &needle) {
                    proof {
                        assert(contains_seq(lower_of(runs[i as int]), ql[qi as int]));
                    }
                    qualifies = false;
                } else {
                    proof {
                        assert(!contains_seq(lower_of(runs[i as int]), ql[qi as int]));
                    }
                }
                qi += 1;
            }
        }
        proof {
            assert(qualifies == topic_qualifies(runs[i as int], ql));
        }
        if qualifies {
            proof {
                let w0 = lower_of(runs[i as int]);
                lemma_topic_occurrences_prefix_le(runs, i + 1, w0, ql);
            }
            table.add(low.as_str(), 1);
        }
        i += 1;
    }
    proof {
        assert(runs.take(runs.len() as int) =~= runs);
    }
}

/// The topic-word counts of the hits, sorted by count descending: for every
/// qualifying case-folded word, exactly its occurrence count.
pub fn topic_counts(hits: &Vec<SearchHit>, queries: &Vec<String>) -> (r: Vec<(String, u64)>)
    requires
        forall|w: Seq<char>|
            spec_topics_count(hits@, w, lowered_terms(queries.deep_view())) <= u64::MAX,
    ensures
        sorted_desc(r@),
        distinct_keys(r@),
        forall|w: Seq<char>|
            count_in_pairs(r@, w) == spec_topics_count(
                hits@,
                w,
                lowered_terms(queries.deep_view()),
            ),
{
    let ghost ql = lowered_terms(queries.deep_view());
    let mut lowered: Vec<String> = Vec::new();
    let mut qi: usize = 0;
    while qi < queries.len()
        invariant
            0 <= qi <= queries@.len(),
            queries.deep_view().len() == queries@.len(),
            forall|k: int|
                0 <= k < queries@.len() ==> queries.deep_view()[k] == #[trigger] queries@[k]@,
            lowered.deep_view().len() == qi,
            forall|k: int|
                0 <= k < qi ==> lowered.deep_view()[k] == lower_of(
                    #[trigger] queries.deep_view()[k],
                ),
        decreases queries@.len() - qi,
    {
        lowered.push(crate::textops::to_lowercase(queries[qi].as_str()));
        qi += 1;
    }
    proof {
        assert(lowered.deep_view() =~~= ql);
    }
    let mut table = CountTable::new();
    proof {
        assert forall|w: Seq<char>| count_in_pairs(table.pairs(), w) == 0 by {
            lemma_count_in_absent(table.pairs(), w);
        }
        assert(hits@.take(0) =~= Seq::<SearchHit>::empty());
    }
    let mut i: usize = 0;
    while i < hits.len()
        invariant
            0 <= i <= hits@.len(),
            lowered.deep_view() == ql,
            ql == lowered_terms(queries.deep_view()),
            table.wf(),
            forall|w: Seq<char>| spec_topics_count(hits@, w, ql) <= u64::MAX,
            forall|w: Seq<char>|
                count_in_pairs(table.pairs(), w) == spec_topics_count(hits@.take(i as int), w, ql),
        decreases hits@.len() - i,
    {
        proof {
            assert(hits@.take(i + 1) =~= hits@.take(i as int).push(hits@[i as int]));
            assert forall|w: Seq<char>|
                spec_topics_count(hits@.take(i + 1), w, ql) == spec_topics_count(
                    hits@.take(i as int),
                    w,
                    ql,
                ) + spec_topic_occurrences(spec_hit_topic_runs(hits@[i as int]), w, ql) by {
                lemma_topics_count_push(hits@.take(i as int), hits@[i as int], w, ql);
            }
            assert forall|w: Seq<char>|
                count_in_pairs(table.pairs(), w) + spec_topic_occurrences(
                    spec_hit_topic_runs(hits@[i as int]),
                    w,
                    ql,
                ) <= u64::MAX by {
                lemma_topics_count_prefix_le(hits@, i + 1, w, ql);
                lemma_topics_count_nonneg(hits@.take(i as int), w, ql);
            }
        }
        count_topics_of_hit(&mut table, &hits[i], &lowered);
        i += 1;
    }
    proof {
        assert(hits@.take(hits@.len() as int) =~= hits@);
    }
    let ghost tp = table.pairs();
    let sorted = sort_entries_desc(table.into_entries());
    proof {
        lemma_counts_through_permutation(tp, sorted@);
    }
    sorted
}

/// The first `k` topic words of a sorted topic table, most frequent first.
pub fn top_topics(topics: &Vec<(String, u64)>, k: usize) -> (r: Vec<String>)
    ensures
        r.deep_view() == pairs_keys(topics@).take(
            vstd::math::min(k as int, topics@.len() as int),
        ),
{
    let end = if k < topics.len() {
        k
    } else {
        topics.len()
    };
    let mut r: Vec<String> = Vec::new();
    let mut i: usize = 0;
    proof {
        assert(r.deep_view() =~= pairs_keys(topics@).take(0));
    }
    while i < end
        invariant
            0 <= i <= end,
            end == vstd::math::min(k as int, topics@.len() as int),
            r.deep_view() == pairs_keys(topics@).take(i as int),
        decreases end - i,
    {
        let ghost before = r.deep_view();
        r.push(topics[i].0.clone());
        proof {
            assert(r.deep_view() =~~= before.push(topics@[i as int].0@));
            assert(pairs_keys(topics@).take(i + 1) =~= pairs_keys(topics@).take(i as int).push(
                pairs_keys(topics@)[i as int],
            ));
        }
        i += 1;
    }
    r
}

/// The condensed summary of a search: per-project and per-role counts in
/// descending order, the number of distinct sessions, the lexicographic
/// date range, the topic table, and the exact total.
pub struct Summary {
    /// Hits per project, sorted by count descending.
    pub project_counts: Vec<(String, u64)>,
    /// Hits per role, sorted by count descending.
    pub role_counts: Vec<(String, u64)>,
    /// Distinct project-and-session pairs among the hits.
    pub session_count: u64,
    /// The earliest hit date, if any hit carries a timestamp.
    pub earliest: Option<String>,
    /// The latest hit date, if any hit carries a timestamp.
    pub latest: Option<String>,
    /// Qualifying topic words and their counts, sorted by count descending.
    pub topic_counts: Vec<(String, u64)>,
    /// The total number of hits.
    pub total: u64,
}

/// Summarizes a hit list in a single pass over each aspect.
pub fn summarize(hits: &Vec<SearchHit>, queries: &Vec<String>) -> (r: Summary)
    requires
        hits@.len() <= u64::MAX,
        forall|w: Seq<char>|
            spec_topics_count(hits@, w, lowered_terms(queries.deep_view())) <= u64::MAX,
    ensures
        sorted_desc(r.project_counts@),
        distinct_keys(r.project_counts@),
        forall|p: Seq<char>|
            count_in_pairs(r.project_counts@, p) == spec_project_count(hits@, p),
        sum_pairs(r.project_counts@) == hits@.len(),
        r.total as int == hits@.len(),
        sorted_desc(r.role_counts@),
        distinct_keys(r.role_counts@),
        forall|role: Seq<char>|
            count_in_pairs(r.role_counts@, role) == spec_hit_role_count(hits@, role),
        r.session_count as int == spec_session_keys(hits@).to_set().len(),
        ({
            let dates = spec_hit_dates(hits@);
            &&& (r.earliest is Some) == (dates.len() > 0)
            &&& (r.latest is Some) == (dates.len() > 0)
            &&& (r.earliest matches Some(e) ==> dates.contains(e@) && (forall|i: int|
                0 <= i < dates.len() ==> !lex_lt(#[trigger] dates[i], e@)))
            &&& (r.latest matches Some(l) ==> dates.contains(l@) && (forall|i: int|
                0 <= i < dates.len() ==> !lex_lt(l@, #[trigger] dates[i])))
        }),
        sorted_desc(r.topic_counts@),
        distinct_keys(r.topic_counts@),
        forall|w: Seq<char>|
            count_in_pairs(r.topic_counts@, w) == spec_topics_count(
                hits@,
                w,
                lowered_terms(queries.deep_view()),
            ),
{
    let (project_counts, total) = count_by_project(hits);
    let role_counts = count_by_role(hits);
    let session_count = distinct_session_count(hits);
    let (earliest, latest) = date_range(hits);
    let topics = topic_counts(hits, queries);
    Summary {
        project_counts,
        role_counts,
        session_count,
        earliest,
        latest,
        topic_counts: topics,
        total,
    }
}

} // verus!
