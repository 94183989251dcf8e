//! Character-level text utilities: substring search, lexicographic order,
//! case folding, trimming and prefix handling.
//!
//! Exec code works on `Vec<char>` so that every step is verified; `String`
//! appears only at the boundaries. Case folding is delegated to the standard
//! library and named by an uninterpreted function.

use vstd::prelude::*;

verus! {

/// The needle occurs in the haystack starting at position `i`.
pub open spec fn contains_at(hay: Seq<char>, needle: Seq<char>, i: int) -> bool {
    &&& 0 <= i
    &&& i + needle.len() <= hay.len()
    &&& hay.subrange(i, i + needle.len() as int) == needle
}

/// The needle occurs somewhere in the haystack. An empty needle always occurs.
pub open spec fn contains_seq(hay: Seq<char>, needle: Seq<char>) -> bool {
    exists|i: int| contains_at(hay, needle, i)
}

/// Strict lexicographic order on character sequences, the order `str`
/// comparison gives (UTF-8 byte order agrees with code-point order).
pub open spec fn lex_lt(a: Seq<char>, b: Seq<char>) -> bool
    decreases a.len(),
{
    if b.len() == 0 {
        false
    } else if a.len() == 0 {
        true
    } else if a[0] != b[0] {
        a[0] < b[0]
    } else {
        lex_lt(a.drop_first(), b.drop_first())
    }
}

/// What `str::to_lowercase` returns for a given sequence of characters; the
/// result depends on the characters alone.
pub uninterp spec fn lower_of(s: Seq<char>) -> Seq<char>;

/// Relies on `str::to_lowercase`: Unicode lowercasing, a pure function of the
/// input text; an empty input gives an empty result.
#[verifier::external_body]
pub fn to_lowercase(s: &str) -> (r: String)
    ensures
        r@ == lower_of(s@),
        s@.len() == 0 ==> r@.len() == 0,
{
    s.to_lowercase()
}

/// What `str::to_uppercase` returns for a given sequence of characters; the
/// result depends on the characters alone.
pub uninterp spec fn upper_of(s: Seq<char>) -> Seq<char>;

/// Relies on `str::to_uppercase`: Unicode uppercasing, a pure function of
/// the input text; an empty input gives an empty result.
#[verifier::external_body]
pub fn to_uppercase(s: &str) -> (r: String)
    ensures
        r@ == upper_of(s@),
        s@.len() == 0 ==> r@.len() == 0,
{
    s.to_uppercase()
}

/// What `char::is_alphanumeric` returns: whether the character is in a Unicode
/// letter or number category.
pub uninterp spec fn alphanumeric(c: char) -> bool;

/// Relies on `char::is_alphanumeric`: a pure predicate on the character.
#[verifier::external_body]
pub fn is_alphanumeric(c: char) -> (r: bool)
    ensures
        r == alphanumeric(c),
{
    c.is_alphanumeric()
}

/// What `char::is_whitespace` returns: whether the character has the Unicode
/// whitespace property.
pub uninterp spec fn whitespace(c: char) -> bool;

/// Relies on `char::is_whitespace`: a pure predicate on the character.
#[verifier::external_body]
pub fn is_whitespace(c: char) -> (r: bool)
    ensures
        r == whitespace(c),
{
    c.is_whitespace()
}

/// Relies on `String::from_iter` over chars: collecting characters yields the
/// string of exactly those characters.
#[verifier::external_body]
pub fn string_from_chars(v: &Vec<char>) -> (r: String)
    ensures
        r@ == v@,
{
    v.iter().collect()
}

/// The characters of a string, as an indexable vector.
pub fn chars_of(s: &str) -> (r: Vec<char>)
    ensures
        r@ == s@,
{
    let mut r: Vec<char> = Vec::new();
    for c in it: s.chars()
        invariant
            it.seq() == s@,
            r@ == it.seq().take(it.index() as int),
    {
        r.push(c);
    }
    proof {
        assert(r@ =~= s@);
    }
    r
}

/// The needle matches the haystack at position `i`.
fn matches_at(hay: &Vec<char>, needle: &Vec<char>, i: usize) -> (r: bool)
    requires
        i + needle@.len() <= hay@.len(),
    ensures
        r == contains_at(hay@, needle@, i as int),
{
    let hlen = hay.len();
    let mut j: usize = 0;
    while j < needle.len()
        invariant
            0 <= j <= needle@.len(),
            i + needle@.len() <= hay@.len(),
            hlen == hay@.len(),
            forall|k: int| 0 <= k < j ==> hay@[i + k] == needle@[k],
        decreases needle@.len() - j,
    {
        if hay[i + j] != needle[j] {
            proof {
                let sub = hay@.subrange(i as int, i + needle@.len() as int);
                assert(sub[j as int] != needle@[j as int]);
            }
            return false;
        }
        j += 1;
    }
    proof {
        assert(hay@.subrange(i as int, i + needle@.len() as int) =~= needle@);
    }
    true
}

/// The first position where the needle occurs in the haystack, if any.
pub fn find_in_chars(hay: &Vec<char>, needle: &Vec<char>) -> (r: Option<usize>)
    ensures
        match r {
            Some(i) => contains_at(hay@, needle@, i as int) && forall|k: int|
                0 <= k < i ==> !contains_at(hay@, needle@, k),
            None => !contains_seq(hay@, needle@),
        },
{
    if needle.len() > hay.len() {
        return None;
    }
    let last = hay.len() - needle.len();
    let mut i: usize = 0;
    loop
        invariant
            needle@.len() <= hay@.len(),
            last == hay@.len() - needle@.len(),
            0 <= i <= last,
            forall|k: int| 0 <= k < i ==> !contains_at(hay@, needle@, k),
        ensures
            forall|k: int| 0 <= k <= last ==> !contains_at(hay@, needle@, k),
        decreases last - i,
    {
        if matches_at(hay, needle, i) {
            return Some(i);
        }
        if i == last {
            break;
        }
        i += 1;
    }
    proof {
        assert forall|k: int| !contains_at(hay@, needle@, k) by {
            if 0 <= k <= last {
                assert(!contains_at(hay@, needle@, k));
            }
        }
    }
    None
}

/// Substring containment on character vectors.
pub fn contains_chars(hay: &Vec<char>, needle: &Vec<char>) -> (r: bool)
    ensures
        r == contains_seq(hay@, needle@),
{
    find_in_chars(hay, needle).is_some()
}

/// Substring containment on strings.
pub fn str_contains(hay: &str, needle: &str) -> (r: bool)
    ensures
        r == contains_seq(hay@, needle@),
{
    let h = chars_of(hay);
    let n = chars_of(needle);
    contains_chars(&h, &n)
}

/// Character-for-character string equality.
pub fn str_eq(a: &str, b: &str) -> (r: bool)
    ensures
        r == (a@ == b@),
{
    let av = chars_of(a);
    let bv = chars_of(b);
    if av.len() != bv.len() {
        return false;
    }
    let mut i: usize = 0;
    while i < av.len()
        invariant
            av@ == a@,
            bv@ == b@,
            av@.len() == bv@.len(),
            0 <= i <= av@.len(),
            forall|k: int| 0 <= k < i ==> av@[k] == bv@[k],
        decreases av@.len() - i,
    {
        if av[i] != bv[i] {
            return false;
        }
        i += 1;
    }
    proof {
        assert(a@ =~= b@);
    }
    true
}

/// Strict lexicographic comparison of two strings.
pub fn str_lt(a: &str, b: &str) -> (r: bool)
    ensures
        r == lex_lt(a@, b@),
{
    let av = chars_of(a);
    let bv = chars_of(b);
    let mut i: usize = 0;
    proof {
        assert(av@.skip(0) =~= av@);
        assert(bv@.skip(0) =~= bv@);
    }
    loop
        invariant
            av@ == a@,
            bv@ == b@,
            0 <= i <= av@.len(),
            0 <= i <= bv@.len(),
            lex_lt(a@, b@) == lex_lt(av@.skip(i as int), bv@.skip(i as int)),
        decreases av@.len() - i,
    {
        proof {
            reveal_with_fuel(lex_lt, 2);
        }
        if i == bv.len() {
            return false;
        }
        if i == av.len() {
            return true;
        }
        let ca = av[i];
        let cb = bv[i];
        proof {
            assert(av@.skip(i as int)[0] == ca);
            assert(bv@.skip(i as int)[0] == cb);
            assert(av@.skip(i as int).drop_first() =~= av@.skip(i + 1));
            assert(bv@.skip(i as int).drop_first() =~= bv@.skip(i + 1));
        }
        if ca != cb {
            return ca < cb;
        }
        i += 1;
    }
}

/// The parts joined with the separator between consecutive parts.
pub open spec fn join_with(parts: Seq<Seq<char>>, sep: Seq<char>) -> Seq<char>
    decreases parts.len(),
{
    if parts.len() == 0 {
        Seq::empty()
    } else if parts.len() == 1 {
        parts[0]
    } else {
        parts[0] + sep + join_with(parts.drop_first(), sep)
    }
}

/// Joining one more part appends a separator (unless nothing was there) and
/// then the part.
pub proof fn lemma_join_with_push(parts: Seq<Seq<char>>, x: Seq<char>, sep: Seq<char>)
    ensures
        join_with(parts.push(x), sep) == if parts.len() == 0 {
            x
        } else {
            join_with(parts, sep) + sep + x
        },
    decreases parts.len(),
{
    if parts.len() == 0 {
        assert(parts.push(x)[0] == x);
    } else {
        assert(parts.push(x).drop_first() =~= parts.drop_first().push(x));
        lemma_join_with_push(parts.drop_first(), x, sep);
        if parts.len() == 1 {
            assert(parts.push(x)[0] == parts[0]);
        } else {
            assert((parts[0] + sep + (join_with(parts.drop_first(), sep) + sep + x)) =~= (parts[0]
                + sep + join_with(parts.drop_first(), sep)) + sep + x);
        }
    }
}

/// The parts joined with the separator, as a string.
pub fn join_strings(parts: &Vec<String>, sep: &str) -> (r: String)
    ensures
        r@ == join_with(parts.deep_view(), sep@),
{
    let mut r = String::new();
    let mut i: usize = 0;
    while i < parts.len()
        invariant
            0 <= i <= parts@.len(),
            parts.deep_view().len() == parts@.len(),
            forall|k: int| 0 <= k < parts@.len() ==> parts.deep_view()[k] == #[trigger] parts@[k]@,
            r@ == join_with(parts.deep_view().take(i as int), sep@),
        decreases parts@.len() - i,
    {
        if i > 0 {
            r.append(sep);
        }
        r.append(parts[i].as_str());
        proof {
            let dv = parts.deep_view();
            assert(dv.take(i + 1) =~= dv.take(i as int).push(dv[i as int]));
            lemma_join_with_push(dv.take(i as int), dv[i as int], sep@);
        }
        i += 1;
    }
    proof {
        assert(parts.deep_view().take(parts@.len() as int) =~= parts.deep_view());
    }
    r
}

/// `pre` is a prefix of `s`.
pub open spec fn starts_with(s: Seq<char>, pre: Seq<char>) -> bool {
    pre.len() <= s.len() && s.subrange(0, pre.len() as int) == pre
}

/// Whether the string begins with the prefix.
pub fn str_starts_with(s: &str, pre: &str) -> (r: bool)
    ensures
        r == starts_with(s@, pre@),
{
    let sv = chars_of(s);
    let pv = chars_of(pre);
    if pv.len() > sv.len() {
        return false;
    }
    let r = matches_at(&sv, &pv, 0);
    proof {
        assert(contains_at(s@, pre@, 0) == starts_with(s@, pre@));
    }
    r
}

/// Splitting on a separator, continued: the pieces of `cur + s`, where `cur`
/// is the piece under construction. A split always yields at least one piece,
/// and empty pieces between consecutive separators are kept.
pub open spec fn split_acc(s: Seq<char>, sep: char, cur: Seq<char>) -> Seq<Seq<char>>
    decreases s.len(),
{
    if s.len() == 0 {
        seq![cur]
    } else if s[0] == sep {
        seq![cur] + split_acc(s.drop_first(), sep, Seq::empty())
    } else {
        split_acc(s.drop_first(), sep, cur.push(s[0]))
    }
}

/// The pieces of `s` between occurrences of the separator, in order.
pub open spec fn split_char(s: Seq<char>, sep: char) -> Seq<Seq<char>> {
    split_acc(s, sep, Seq::empty())
}

/// The pieces of the string between occurrences of the separator.
pub fn str_split_char(s: &str, sep: char) -> (r: Vec<String>)
    ensures
        r.deep_view() == split_char(s@, sep),
{
    let sv = chars_of(s);
    let mut out: Vec<String> = Vec::new();
    let mut cur: Vec<char> = Vec::new();
    let mut i: usize = 0;
    proof {
        assert(sv@.skip(0) =~= sv@);
    }
    while i < sv.len()
        invariant
            sv@ == s@,
            0 <= i <= sv@.len(),
            split_char(s@, sep) == out.deep_view() + split_acc(
                sv@.skip(i as int),
                sep,
                cur@,
            ),
        decreases sv@.len() - i,
    {
        let c = sv[i];
        proof {
            assert(sv@.skip(i as int)[0] == c);
            assert(sv@.skip(i as int).drop_first() =~= sv@.skip(i + 1));
        }
        if c == sep {
            let ghost before = out.deep_view();
            let ghost curv = cur@;
            let piece = string_from_chars(&cur);
            out.push(piece);
            cur = Vec::new();
            proof {
                let rest = split_acc(sv@.skip(i + 1), sep, Seq::<char>::empty());
                assert(out.deep_view() =~~= before.push(curv));
                assert(before + (seq![curv] + rest) =~~= before.push(curv) + rest);
            }
        } else {
            cur.push(c);
        }
        i += 1;
    }
    proof {
        assert(sv@.skip(sv@.len() as int) =~= Seq::<char>::empty());
    }
    let ghost before = out.deep_view();
    let piece = string_from_chars(&cur);
    out.push(piece);
    proof {
        assert(out.deep_view() =~~= before + seq![cur@]);
    }
    out
}


/// A character that belongs to a word: alphanumeric, or an underscore where
/// underscores are kept.
pub open spec fn word_char(c: char, allow_underscore: bool) -> bool {
    alphanumeric(c) || (allow_underscore && c == '_')
}

/// Tokenization, continued: the word runs of `cur + s`, where `cur` is the
/// run under construction. Only maximal non-empty runs are kept.
pub open spec fn runs_acc(s: Seq<char>, allow_underscore: bool, cur: Seq<char>) -> Seq<Seq<char>>
    decreases s.len(),
{
    if s.len() == 0 {
        if cur.len() == 0 {
            Seq::empty()
        } else {
            seq![cur]
        }
    } else if word_char(s[0], allow_underscore) {
        runs_acc(s.drop_first(), allow_underscore, cur.push(s[0]))
    } else if cur.len() == 0 {
        runs_acc(s.drop_first(), allow_underscore, Seq::empty())
    } else {
        seq![cur] + runs_acc(s.drop_first(), allow_underscore, Seq::empty())
    }
}

/// The maximal word runs of a text, in order.
pub open spec fn word_runs(s: Seq<char>, allow_underscore: bool) -> Seq<Seq<char>> {
    runs_acc(s, allow_underscore, Seq::empty())
}

/// The maximal word runs of a text, in order.
pub fn tokenize(text: &str, allow_underscore: bool) -> (r: Vec<String>)
    ensures
        r.deep_view() == word_runs(text@, allow_underscore),
{
    let tv = chars_of(text);
    let mut out: Vec<String> = Vec::new();
    let mut cur: Vec<char> = Vec::new();
    let mut i: usize = 0;
    proof {
        assert(tv@.skip(0) =~= tv@);
    }
    while i < tv.len()
        invariant
            tv@ == text@,
            0 <= i <= tv@.len(),
            word_runs(text@, allow_underscore) == out.deep_view() + runs_acc(
                tv@.skip(i as int),
                allow_underscore,
                cur@,
            ),
        decreases tv@.len() - i,
    {
        let c = tv[i];
        proof {
            assert(tv@.skip(i as int)[0] == c);
            assert(tv@.skip(i as int).drop_first() =~= tv@.skip(i + 1));
        }
        let keep = is_alphanumeric(c) || (allow_underscore && c == '_');
        proof {
            assert(keep == word_char(c, allow_underscore));
            if cur@.len() == 0 {
                assert(cur@ =~= Seq::<char>::empty());
            }
        }
        if keep {
            cur.push(c);
        } else if cur.len() > 0 {
            let ghost before = out.deep_view();
            let ghost curv = cur@;
            let piece = string_from_chars(&cur);
            out.push(piece);
            cur = Vec::new();
            proof {
                let rest = runs_acc(tv@.skip(i + 1), allow_underscore, Seq::<char>::empty());
                assert(out.deep_view() =~~= before.push(curv));
                assert(before + (seq![curv] + rest) =~~= before.push(curv) + rest);
            }
        }
        i += 1;
    }
    proof {
        assert(tv@.skip(tv@.len() as int) =~= Seq::<char>::empty());
    }
    if cur.len() > 0 {
        let ghost before = out.deep_view();
        let piece = string_from_chars(&cur);
        out.push(piece);
        proof {
            assert(out.deep_view() =~~= before + seq![cur@]);
        }
    } else {
        proof {
            assert(cur@ =~= Seq::<char>::empty());
            assert(out.deep_view() + Seq::<Seq<char>>::empty() =~~= out.deep_view());
        }
    }
    out
}

/// A string truncated to `max` characters, with an ellipsis marker when
/// something was cut.
pub open spec fn spec_truncated(s: Seq<char>, max: int) -> Seq<char> {
    if s.len() <= max {
        s
    } else {
        s.take(max) + "..."@
    }
}

/// The string truncated to `max` characters, marked when something was cut.
pub fn truncate_chars(s: &str, max: usize) -> (r: String)
    ensures
        r@ == spec_truncated(s@, max as int),
{
    let v = chars_of(s);
    if v.len() <= max {
        let mut owned = String::new();
        owned.append(s);
        owned
    } else {
        let head = take_chars(s, max);
        let mut r = string_from_chars(&head);
        r.append("...");
        r
    }
}

/// The sequence with every occurrence of one character replaced by a string.
pub open spec fn spec_replaced(s: Seq<char>, from: char, to: Seq<char>) -> Seq<char>
    decreases s.len(),
{
    if s.len() == 0 {
        Seq::empty()
    } else {
        (if s[0] == from {
            to
        } else {
            seq![s[0]]
        }) + spec_replaced(s.drop_first(), from, to)
    }
}

/// One more character appends its replacement.
proof fn lemma_replaced_push(s: Seq<char>, c: char, from: char, to: Seq<char>)
    ensures
        spec_replaced(s.push(c), from, to) == spec_replaced(s, from, to) + (if c == from {
            to
        } else {
            seq![c]
        }),
    decreases s.len(),
{
    if s.len() == 0 {
        reveal_with_fuel(spec_replaced, 2);
        assert(s.push(c)[0] == c);
        assert(s.push(c).drop_first() =~= s);
        assert(spec_replaced(s.push(c), from, to) =~= spec_replaced(s, from, to) + (if c == from {
            to
        } else {
            seq![c]
        }));
    } else {
        assert(s.push(c)[0] == s[0]);
        assert(s.push(c).drop_first() =~= s.drop_first().push(c));
        lemma_replaced_push(s.drop_first(), c, from, to);
        assert(spec_replaced(s.push(c), from, to) =~= spec_replaced(s, from, to) + (if c == from {
            to
        } else {
            seq![c]
        }));
    }
}

/// The string with every occurrence of one character replaced.
pub fn replace_char(s: &str, from: char, to: &str) -> (r: String)
    ensures
        r@ == spec_replaced(s@, from, to@),
{
    let sv = chars_of(s);
    let tv = chars_of(to);
    let mut out: Vec<char> = Vec::new();
    let mut i: usize = 0;
    proof {
        assert(s@.take(0) =~= Seq::<char>::empty());
    }
    while i < sv.len()
        invariant
            sv@ == s@,
            tv@ == to@,
            0 <= i <= s@.len(),
            out@ == spec_replaced(s@.take(i as int), from, to@),
        decreases s@.len() - i,
    {
        let c = sv[i];
        let ghost before = out@;
        proof {
            assert(s@.take(i + 1) =~= s@.take(i as int).push(s@[i as int]));
            lemma_replaced_push(s@.take(i as int), s@[i as int], from, to@);
        }
        if c == from {
            let mut j: usize = 0;
            while j < tv.len()
                invariant
                    tv@ == to@,
                    0 <= j <= to@.len(),
                    out@ == before + to@.take(j as int),
                decreases to@.len() - j,
            {
                out.push(tv[j]);
                proof {
                    assert(to@.take(j + 1) =~= to@.take(j as int).push(to@[j as int]));
                }
                j += 1;
            }
            proof {
                assert(to@.take(to@.len() as int) =~= to@);
                assert(out@ =~= before + to@);
            }
        } else {
            out.push(c);
            proof {
                assert(out@ =~= before + seq![c]);
            }
        }
        i += 1;
    }
    proof {
        assert(s@.take(s@.len() as int) =~= s@);
    }
    string_from_chars(&out)
}

/// The first `n` characters of a string, or all of it if shorter.
pub fn take_chars(s: &str, n: usize) -> (r: Vec<char>)
    ensures
        r@ == s@.take(vstd::math::min(n as int, s@.len() as int)),
{
    let v = chars_of(s);
    let mut r: Vec<char> = Vec::new();
    let end = if n < v.len() {
        n
    } else {
        v.len()
    };
    let mut i: usize = 0;
    while i < end
        invariant
            v@ == s@,
            end == vstd::math::min(n as int, s@.len() as int),
            0 <= i <= end,
            r@ == s@.take(i as int),
        decreases end - i,
    {
        r.push(v[i]);
        proof {
            assert(s@.take(i + 1) =~= s@.take(i as int).push(s@[i as int]));
        }
        i += 1;
    }
    r
}

} // verus!
