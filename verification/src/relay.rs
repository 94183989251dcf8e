//! Text helpers of the relay feature: message lines carry `To:` and
//! `MessageID:` fields, possibly wrapped in markdown bold markers, and the
//! first line carrying a field decides.

use vstd::prelude::*;

use crate::textops::{
    chars_of, is_whitespace, split_char, starts_with, string_from_chars, whitespace,
};

verus! {

/// The sequence with leading whitespace dropped.
pub open spec fn drop_leading_ws(s: Seq<char>) -> Seq<char>
    decreases s.len(),
{
    if s.len() > 0 && whitespace(s[0]) {
        drop_leading_ws(s.drop_first())
    } else {
        s
    }
}

/// The sequence with trailing whitespace dropped.
pub open spec fn drop_trailing_ws(s: Seq<char>) -> Seq<char>
    decreases s.len(),
{
    if s.len() > 0 && whitespace(s.last()) {
        drop_trailing_ws(s.drop_last())
    } else {
        s
    }
}

/// The sequence trimmed of whitespace on both sides.
pub open spec fn spec_trim(s: Seq<char>) -> Seq<char> {
    drop_trailing_ws(drop_leading_ws(s))
}

/// The sequence with every asterisk removed.
pub open spec fn remove_stars(s: Seq<char>) -> Seq<char>
    decreases s.len(),
{
    if s.len() == 0 {
        Seq::empty()
    } else if s[0] == '*' {
        remove_stars(s.drop_first())
    } else {
        seq![s[0]] + remove_stars(s.drop_first())
    }
}

/// A line cleaned: trimmed, stripped of bold markers, and trimmed again.
pub open spec fn spec_clean_line(line: Seq<char>) -> Seq<char> {
    spec_trim(remove_stars(spec_trim(line)))
}

/// One more character keeps or drops itself under star removal.
proof fn lemma_remove_stars_push(s: Seq<char>, c: char)
    ensures
        remove_stars(s.push(c)) == remove_stars(s) + (if c == '*' {
            Seq::<char>::empty()
        } else {
            seq![c]
        }),
    decreases s.len(),
{
    if s.len() == 0 {
        reveal_with_fuel(remove_stars, 2);
        assert(s.push(c)[0] == c);
        assert(s.push(c).drop_first() =~= s);
        assert(remove_stars(s.push(c)) =~= remove_stars(s) + (if c == '*' {
            Seq::<char>::empty()
        } else {
            seq![c]
        }));
    } else {
        assert(s.push(c)[0] == s[0]);
        assert(s.push(c).drop_first() =~= s.drop_first().push(c));
        lemma_remove_stars_push(s.drop_first(), c);
        assert(remove_stars(s.push(c)) =~= remove_stars(s) + (if c == '*' {
            Seq::<char>::empty()
        } else {
            seq![c]
        }));
    }
}

/// The characters trimmed of whitespace on both sides.
fn trim_chars(v: &Vec<char>) -> (r: Vec<char>)
    ensures
        r@ == spec_trim(v@),
{
    let mut lo: usize = 0;
    let n = v.len();
    proof {
        assert(v@.skip(0) =~= v@);
    }
    while lo < n && is_whitespace(v[lo])
        invariant
            n == v@.len(),
            0 <= lo <= n,
            drop_leading_ws(v@) == drop_leading_ws(v@.skip(lo as int)),
            forall|k: int| 0 <= k < lo ==> whitespace(v@[k]),
        decreases n - lo,
    {
        proof {
            assert(v@.skip(lo as int)[0] == v@[lo as int]);
            assert(v@.skip(lo as int).drop_first() =~= v@.skip(lo + 1));
        }
        lo += 1;
    }
    proof {
        if lo < n {
            assert(v@.skip(lo as int)[0] == v@[lo as int]);
        }
        assert(drop_leading_ws(v@) == v@.skip(lo as int));
    }
    let mut hi: usize = n;
    while hi > lo && is_whitespace(v[hi - 1])
        invariant
            n == v@.len(),
            0 <= lo <= hi <= n,
            drop_leading_ws(v@) == v@.skip(lo as int),
            drop_trailing_ws(v@.skip(lo as int)) == drop_trailing_ws(
                v@.subrange(lo as int, hi as int),
            ),
        decreases hi,
    {
        proof {
            let cur = v@.subrange(lo as int, hi as int);
            assert(cur.last() == v@[hi - 1]);
            assert(cur.drop_last() =~= v@.subrange(lo as int, hi - 1));
        }
        hi -= 1;
    }
    proof {
        let cur = v@.subrange(lo as int, hi as int);
        if hi > lo {
            assert(cur.last() == v@[hi - 1]);
        }
        assert(drop_trailing_ws(cur) == cur);
    }
    let mut out: Vec<char> = Vec::new();
    let mut i: usize = lo;
    while i < hi
        invariant
            n == v@.len(),
            0 <= lo <= i <= hi <= n,
            out@ == v@.subrange(lo as int, i as int),
        decreases hi - i,
    {
        out.push(v[i]);
        proof {
            assert(v@.subrange(lo as int, i + 1) =~= v@.subrange(lo as int, i as int).push(
                v@[i as int],
            ));
        }
        i += 1;
    }
    out
}

/// A line cleaned: trimmed, stripped of all markdown bold markers, trimmed.
pub fn clean_line(line: &str) -> (r: String)
    ensures
        r@ == spec_clean_line(line@),
{
    let v = chars_of(line);
    let trimmed = trim_chars(&v);
    let mut kept: Vec<char> = Vec::new();
    let mut i: usize = 0;
    proof {
        assert(trimmed@.take(0) =~= Seq::<char>::empty());
        assert(remove_stars(trimmed@.take(0)) =~= Seq::<char>::empty());
    }
    while i < trimmed.len()
        invariant
            0 <= i <= trimmed@.len(),
            kept@ == remove_stars(trimmed@.take(i as int)),
        decreases trimmed@.len() - i,
    {
        let c = trimmed[i];
        proof {
            assert(trimmed@.take(i + 1) =~= trimmed@.take(i as int).push(trimmed@[i as int]));
            lemma_remove_stars_push(trimmed@.take(i as int), trimmed@[i as int]);
        }
        if c != '*' {
            kept.push(c);
            proof {
                assert(kept@ =~= remove_stars(trimmed@.take(i + 1)));
            }
        } else {
            proof {
                assert(kept@ =~= remove_stars(trimmed@.take(i + 1)));
            }
        }
        i += 1;
    }
    proof {
        assert(trimmed@.take(trimmed@.len() as int) =~= trimmed@);
    }
    let final_trim = trim_chars(&kept);
    string_from_chars(&final_trim)
}

/// What a line yields for a field with this prefix: the trimmed rest of its
/// cleaned form, when that is non-empty.
pub open spec fn spec_line_field(line: Seq<char>, prefix: Seq<char>) -> Option<Seq<char>> {
    let cleaned = spec_clean_line(line);
    if starts_with(cleaned, prefix) && spec_trim(cleaned.skip(prefix.len() as int)).len() > 0 {
        Some(spec_trim(cleaned.skip(prefix.len() as int)))
    } else {
        None
    }
}

/// The first line of the text that yields a field with this prefix.
pub open spec fn spec_extract_field(lines: Seq<Seq<char>>, prefix: Seq<char>) -> Option<Seq<char>>
    decreases lines.len(),
{
    if lines.len() == 0 {
        None
    } else {
        match spec_line_field(lines[0], prefix) {
            Some(v) => Some(v),
            None => spec_extract_field(lines.drop_first(), prefix),
        }
    }
}

/// The first field value with this prefix among the text's lines.
fn extract_field(text: &str, prefix: &str) -> (r: Option<String>)
    ensures
        match r {
            Some(v) => spec_extract_field(split_char(text@, '\n'), prefix@) == Some(v@),
            None => spec_extract_field(split_char(text@, '\n'), prefix@) is None,
        },
{
    let lines = crate::textops::str_split_char(text, '\n');
    let ghost lv = lines.deep_view();
    let mut i: usize = 0;
    proof {
        assert(lv =~= lv.skip(0));
    }
    while i < lines.len()
        invariant
            lv == lines.deep_view(),
            lv.len() == lines@.len(),
            lv == split_char(text@, '\n'),
            0 <= i <= lv.len(),
            spec_extract_field(lv, prefix@) == spec_extract_field(lv.skip(i as int), prefix@),
        decreases lv.len() - i,
    {
        proof {
            assert(lv.skip(i as int)[0] == lv[i as int]);
            assert(lv.skip(i as int).drop_first() =~= lv.skip(i + 1));
        }
        let cleaned = clean_line(lines[i].as_str());
        if crate::textops::str_starts_with(cleaned.as_str(), prefix) {
            let cv = chars_of(cleaned.as_str());
            let mut rest: Vec<char> = Vec::new();
            let plen = crate::textops::chars_of(prefix).len();
            let mut j: usize = plen;
            proof {
                assert(cv@.subrange(plen as int, plen as int) =~= Seq::<char>::empty());
            }
            while j < cv.len()
                invariant
                    cv@ == cleaned@,
                    plen == prefix@.len(),
                    plen <= j <= cv@.len() || (plen > cv@.len() && j == plen),
                    plen <= cv@.len() ==> rest@ == cv@.subrange(plen as int, j as int),
                decreases cv@.len() - j,
            {
                rest.push(cv[j]);
                proof {
                    assert(cv@.subrange(plen as int, j + 1) =~= cv@.subrange(
                        plen as int,
                        j as int,
                    ).push(cv@[j as int]));
                }
                j += 1;
            }
            proof {
                assert(cv@.subrange(plen as int, cv@.len() as int) =~= cleaned@.skip(plen as int));
            }
            let value = trim_chars(&rest);
            if value.len() > 0 {
                proof {
                    assert(spec_line_field(lv[i as int], prefix@) == Some(value@));
                }
                return Some(string_from_chars(&value));
            }
            proof {
                assert(spec_line_field(lv[i as int], prefix@) is None);
            }
        } else {
            proof {
                assert(spec_line_field(lv[i as int], prefix@) is None);
            }
        }
        i += 1;
    }
    proof {
        assert(lv.skip(lv.len() as int) =~= Seq::<Seq<char>>::empty());
    }
    None
}

/// The `To: <name>` field of a message text, from its first line carrying
/// one.
pub fn extract_to_field(text: &str) -> (r: Option<String>)
    ensures
        match r {
            Some(v) => spec_extract_field(split_char(text@, '\n'), "To:"@) == Some(v@),
            None => spec_extract_field(split_char(text@, '\n'), "To:"@) is None,
        },
{
    extract_field(text, "To:")
}

/// The `MessageID: <id>` field of a message text, from its first line
/// carrying one.
pub fn extract_message_id(text: &str) -> (r: Option<String>)
    ensures
        match r {
            Some(v) => spec_extract_field(split_char(text@, '\n'), "MessageID:"@) == Some(v@),
            None => spec_extract_field(split_char(text@, '\n'), "MessageID:"@) is None,
        },
{
    extract_field(text, "MessageID:")
}

} // verus!
