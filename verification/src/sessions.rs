//! Session listings and recent-message views: the metadata a listing shows
//! for one session, date filtering, and ordering by time, newest first.

use vstd::prelude::*;

use crate::corpus::SessionFile;
use crate::models::{spec_message_of, spec_role_str, spec_text_content, Record};
use crate::textops::{lex_lt, spec_replaced};

verus! {

/// Neither order holds only between equal sequences.
proof fn lemma_lex_connex(a: Seq<char>, b: Seq<char>)
    requires
        !lex_lt(a, b),
        !lex_lt(b, a),
    ensures
        a == b,
    decreases a.len(),
{
    if b.len() == 0 {
        assert(a.len() == 0);
        assert(a =~= b);
    } else if a.len() == 0 {
        assert(false);
    } else if a[0] != b[0] {
        assert((a[0] as int) < (b[0] as int) || (b[0] as int) < (a[0] as int) || (a[0] as int) == (
        b[0] as int));
        assert(false);
    } else {
        lemma_lex_connex(a.drop_first(), b.drop_first());
        assert(a.len() == b.len());
        assert forall|i: int| 0 <= i < a.len() implies a[i] == b[i] by {
            if i > 0 {
                assert(a.drop_first()[i - 1] == a[i]);
                assert(b.drop_first()[i - 1] == b[i]);
            }
        }
        assert(a =~= b);
    }
}

/// What a listing shows for one session: its file, the first timestamp seen,
/// the first user message's opening, and how many messages were examined.
pub struct SessionEntry {
    /// The session's file.
    pub file: SessionFile,
    /// The first timestamp any message carries, if one was seen.
    pub timestamp: Option<String>,
    /// The first hundred characters of the first user message, if one was
    /// seen.
    pub preview: Option<String>,
    /// How many messages the scan examined before it had what it needed.
    pub msg_count: usize,
}

/// The first timestamp any message record carries.
pub open spec fn spec_first_ts(records: Seq<Record>) -> Option<Seq<char>>
    decreases records.len(),
{
    if records.len() == 0 {
        None
    } else if !(records[0] is Other) && spec_message_of(records[0]).timestamp is Some {
        match spec_message_of(records[0]).timestamp {
            Some(t) => Some(t@),
            None => None,
        }
    } else {
        spec_first_ts(records.drop_first())
    }
}

/// The opening of the first user message: its first hundred characters.
pub open spec fn spec_first_user_preview(records: Seq<Record>) -> Option<Seq<char>>
    decreases records.len(),
{
    if records.len() == 0 {
        None
    } else if records[0] is User {
        let text = spec_text_content(spec_message_of(records[0]), true);
        Some(text.take(vstd::math::min(100int, text.len() as int)))
    } else {
        spec_first_user_preview(records.drop_first())
    }
}

/// How many messages the listing scan examines: it counts messages and stops
/// once a timestamp and a user preview are in hand and more than five
/// messages have been seen.
pub open spec fn spec_entry_count(
    records: Seq<Record>,
    has_ts: bool,
    has_preview: bool,
    count: int,
) -> int
    decreases records.len(),
{
    if records.len() == 0 {
        count
    } else {
        let r0 = records[0];
        let is_msg = !(r0 is Other);
        let c2 = count + (if is_msg {
            1int
        } else {
            0int
        });
        let t2 = has_ts || (is_msg && spec_message_of(r0).timestamp is Some);
        let p2 = has_preview || r0 is User;
        if t2 && p2 && c2 > 5 {
            c2
        } else {
            spec_entry_count(records.drop_first(), t2, p2, c2)
        }
    }
}

/// An equal copy of an optional string.
fn clone_opt(o: &Option<String>) -> (r: Option<String>)
    ensures
        r == *o,
{
    match o {
        Some(s) => Some(s.clone()),
        None => None,
    }
}

/// The listing metadata of one session, from its parsed records.
pub fn session_entry(file: &SessionFile, records: &Vec<Record>) -> (r: SessionEntry)
    ensures
        r.file == *file,
        r.msg_count as int == spec_entry_count(records@, false, false, 0),
        (r.timestamp is Some) == (spec_first_ts(records@) is Some),
        (r.timestamp matches Some(t) ==> spec_first_ts(records@) == Some(t@)),
        (r.preview is Some) == (spec_first_user_preview(records@) is Some),
        (r.preview matches Some(p) ==> spec_first_user_preview(records@) == Some(p@)),
{
    let mut ts: Option<String> = None;
    let mut preview: Option<String> = None;
    let mut count: usize = 0;
    let mut i: usize = 0;
    let n = records.len();
    proof {
        assert(records@.skip(0) =~= records@);
    }
    loop
        invariant_except_break
            spec_entry_count(records@, false, false, 0) == spec_entry_count(
                records@.skip(i as int),
                ts is Some,
                preview is Some,
                count as int,
            ),
        invariant
            n == records@.len(),
            0 <= i <= n,
            count <= i,
            ts is None ==> spec_first_ts(records@) == spec_first_ts(records@.skip(i as int)),
            ts matches Some(t) ==> spec_first_ts(records@) == Some(t@),
            preview is None ==> spec_first_user_preview(records@) == spec_first_user_preview(
                records@.skip(i as int),
            ),
            preview matches Some(p) ==> spec_first_user_preview(records@) == Some(p@),
        ensures
            spec_entry_count(records@, false, false, 0) == count,
            (ts is Some) == (spec_first_ts(records@) is Some),
            (ts matches Some(t) ==> spec_first_ts(records@) == Some(t@)),
            (preview is Some) == (spec_first_user_preview(records@) is Some),
            (preview matches Some(p) ==> spec_first_user_preview(records@) == Some(p@)),
        decreases n - i,
    {
        if i >= n {
            proof {
                assert(records@.skip(i as int).len() == 0);
            }
            break ;
        }
        proof {
            assert(records@.skip(i as int)[0] == records@[i as int]);
            assert(records@.skip(i as int).drop_first() =~= records@.skip(i + 1));
        }
        let rec = &records[i];
        match rec.as_message_record() {
            Some(msg) => {
                count += 1;
                if ts.is_none() {
                    ts = clone_opt(&msg.timestamp);
                }
                if preview.is_none() && matches!(rec, Record::User(_)) {
                    let text = msg.text_content();
                    let head = crate::textops::take_chars(text.as_str(), 100);
                    preview = Some(crate::textops::string_from_chars(&head));
                }
            },
            None => {},
        }
        i += 1;
        if ts.is_some() && preview.is_some() && count > 5 {
            proof {
                assert(spec_entry_count(records@, false, false, 0) == count);
            }
            break ;
        }
    }
    SessionEntry {
        file: SessionFile {
            path: file.path.clone(),
            session_id: file.session_id.clone(),
            project_name: file.project_name.clone(),
            size_bytes: file.size_bytes,
        },
        timestamp: ts,
        preview,
        msg_count: count,
    }
}

/// Whether a listing keeps an entry under the date filters: an entry with a
/// timestamp below `after` or above `before` is dropped; one without a
/// timestamp is kept.
pub fn entry_keep(entry: &SessionEntry, after: Option<&String>, before: Option<&String>) -> (r:
    bool)
    ensures
        r == ({
            &&& (match (after, entry.timestamp) {
                (Some(a), Some(ts)) => !lex_lt(ts@, a@),
                _ => true,
            })
            &&& (match (before, entry.timestamp) {
                (Some(b), Some(ts)) => !lex_lt(b@, ts@),
                _ => true,
            })
        }),
{
    match (after, &entry.timestamp) {
        (Some(a), Some(ts)) => {
            if crate::textops::str_lt(ts.as_str(), a.as_str()) {
                return false;
            }
        },
        _ => {},
    }
    match (before, &entry.timestamp) {
        (Some(b), Some(ts)) => {
            if crate::textops::str_lt(b.as_str(), ts.as_str()) {
                return false;
            }
        },
        _ => {},
    }
    true
}

/// The listing order: an absent timestamp sorts below every present one, and
/// present ones compare lexicographically.
pub open spec fn ts_ge(a: Option<String>, b: Option<String>) -> bool {
    match (a, b) {
        (Some(x), Some(y)) => !lex_lt(x@, y@),
        (Some(_), None) => true,
        (None, None) => true,
        (None, Some(_)) => false,
    }
}

/// The listing order is total.
proof fn lemma_ts_ge_total(a: Option<String>, b: Option<String>)
    ensures
        ts_ge(a, b) || ts_ge(b, a),
{
    match (a, b) {
        (Some(x), Some(y)) => {
            if lex_lt(x@, y@) && lex_lt(y@, x@) {
                crate::reduce::lemma_lex_trans(x@, y@, x@);
                crate::reduce::lemma_lex_irrefl(x@);
            }
        },
        _ => {},
    }
}

/// The listing order is transitive.
proof fn lemma_ts_ge_trans(a: Option<String>, b: Option<String>, c: Option<String>)
    requires
        ts_ge(a, b),
        ts_ge(b, c),
    ensures
        ts_ge(a, c),
{
    match (a, b, c) {
        (Some(x), Some(y), Some(z)) => {
            if lex_lt(x@, z@) {
                if lex_lt(z@, y@) {
                    crate::reduce::lemma_lex_trans(x@, z@, y@);
                } else {
                    lemma_lex_connex(z@, y@);
                }
            }
        },
        _ => {},
    }
}

/// Entries ordered newest first.
pub open spec fn entries_sorted_desc(s: Seq<SessionEntry>) -> bool {
    forall|i: int, j: int| 0 <= i < j < s.len() ==> ts_ge(s[i].timestamp, s[j].timestamp)
}

/// Whether `a`'s timestamp sorts at or above `b`'s.
fn ts_ge_exec(a: &Option<String>, b: &Option<String>) -> (r: bool)
    ensures
        r == ts_ge(*a, *b),
{
    match (a, b) {
        (Some(x), Some(y)) => !crate::textops::str_lt(x.as_str(), y.as_str()),
        (Some(_), None) => true,
        (None, None) => true,
        (None, Some(_)) => false,
    }
}

/// The entries ordered newest first: a permutation of the input.
pub fn sort_entries_recent(v: Vec<SessionEntry>) -> (r: Vec<SessionEntry>)
    ensures
        entries_sorted_desc(r@),
        r@.to_multiset() == v@.to_multiset(),
        r@.len() == v@.len(),
{
    broadcast use vstd::seq_lib::group_to_multiset_ensures;
    broadcast use vstd::multiset::group_multiset_axioms;

    let ghost orig = v@;
    let mut v = v;
    let mut out: Vec<SessionEntry> = Vec::new();
    proof {
        assert(out@.to_multiset().add(v@.to_multiset()) =~= orig.to_multiset());
    }
    while v.len() > 0
        invariant
            entries_sorted_desc(out@),
            out@.to_multiset().add(v@.to_multiset()) == orig.to_multiset(),
            out@.len() + v@.len() == orig.len(),
        decreases v@.len(),
    {
        let ghost vbefore = v@;
        let x = v.remove(0);
        proof {
            broadcast use vstd::seq_lib::group_to_multiset_ensures;
            broadcast use vstd::multiset::group_multiset_axioms;

            assert(vbefore[0] == x);
            assert(vbefore.remove(0).to_multiset() == vbefore.to_multiset().remove(x));
            assert(vbefore.contains(x));
            assert(vbefore.to_multiset().count(x) > 0);
        }
        let mut pos: usize = 0;
        loop
            invariant
                entries_sorted_desc(out@),
                0 <= pos <= out@.len(),
                forall|i: int| 0 <= i < pos ==> ts_ge(#[trigger] out@[i].timestamp, x.timestamp),
            ensures
                0 <= pos <= out@.len(),
                forall|i: int| 0 <= i < pos ==> ts_ge(#[trigger] out@[i].timestamp, x.timestamp),
                pos < out@.len() ==> ts_ge(x.timestamp, out@[pos as int].timestamp),
            decreases out@.len() - pos,
        {
            if pos >= out.len() {
                break ;
            }
            if ts_ge_exec(&out[pos].timestamp, &x.timestamp) {
                pos += 1;
            } else {
                proof {
                    lemma_ts_ge_total(out@[pos as int].timestamp, x.timestamp);
                }
                break ;
            }
        }
        let ghost obefore = out@;
        out.insert(pos, x);
        proof {
            broadcast use vstd::seq_lib::group_to_multiset_ensures;
            broadcast use vstd::multiset::group_multiset_axioms;

            assert(out@ == obefore.insert(pos as int, x));
            assert forall|i: int, j: int| 0 <= i < j < out@.len() implies ts_ge(
                out@[i].timestamp,
                out@[j].timestamp,
            ) by {
                if i < pos && j == pos {
                } else if i == pos && j > pos {
                    assert(out@[j] == obefore[j - 1]);
                    assert(ts_ge(x.timestamp, obefore[pos as int].timestamp));
                    if (pos as int) < j - 1 {
                        lemma_ts_ge_trans(
                            x.timestamp,
                            obefore[pos as int].timestamp,
                            obefore[j - 1].timestamp,
                        );
                    }
                } else {
                }
            }
            lemma_entry_multiset_insert_mid(obefore, x, pos as int);
            assert(out@.to_multiset() == obefore.to_multiset().insert(x));
            assert(out@.to_multiset().add(v@.to_multiset()) =~= orig.to_multiset());
        }
    }
    proof {
        assert(v@.to_multiset().len() == 0);
        assert(out@.to_multiset() =~= orig.to_multiset());
    }
    out
}

/// Inserting anywhere in a sequence inserts into its multiset.
proof fn lemma_entry_multiset_insert_mid(s: Seq<SessionEntry>, x: SessionEntry, pos: int)
    requires
        0 <= pos <= s.len(),
    ensures
        s.insert(pos, x).to_multiset() == s.to_multiset().insert(x),
{
    broadcast use vstd::seq_lib::group_to_multiset_ensures;
    broadcast use vstd::multiset::group_multiset_axioms;

    let t = s.insert(pos, x);
    assert(t[pos] == x);
    assert(t.remove(pos) =~= s);
    assert(t.remove(pos).to_multiset() == t.to_multiset().remove(t[pos]));
    assert(t.contains(x));
    assert(t.to_multiset().count(x) > 0);
    assert(t.to_multiset() =~= s.to_multiset().insert(x));
}

/// One line of the recent-messages view.
pub struct RecentMsg {
    /// The project the message's session belongs to.
    pub project: String,
    /// The session id.
    pub session_id: String,
    /// The message's timestamp, or empty when it has none.
    pub timestamp: String,
    /// The role token.
    pub role: String,
    /// The first 120 characters of the text, newlines marked.
    pub preview: String,
}

/// The newline marker shown inside single-line previews.
pub open spec fn newline_marker() -> Seq<char> {
    " ↵ "@
}

/// The recent-view line of one record, if it is a message passing the role
/// filter.
pub fn recent_message(file: &SessionFile, rec: &Record, role_filter: Option<&String>) -> (r:
    Option<RecentMsg>)
    ensures
        match r {
            Some(m) => {
                &&& !(*rec is Other)
                &&& (role_filter matches Some(rf) ==> spec_role_str(*rec) == rf@)
                &&& m.project@ == file.project_name@
                &&& m.session_id@ == file.session_id@
                &&& m.role@ == spec_role_str(*rec)
                &&& m.timestamp@ == (match spec_message_of(*rec).timestamp {
                    Some(t) => t@,
                    None => Seq::<char>::empty(),
                })
                &&& ({
                    let text = spec_text_content(spec_message_of(*rec), true);
                    m.preview@ == spec_replaced(
                        text.take(vstd::math::min(120int, text.len() as int)),
                        '\n',
                        newline_marker(),
                    )
                })
            },
            None => (*rec is Other) || (role_filter matches Some(rf) && spec_role_str(*rec)
                != rf@),
        },
{
    let msg = match rec.as_message_record() {
        Some(m) => m,
        None => {
            return None;
        },
    };
    let role = rec.role_str();
    match role_filter {
        Some(rf) => {
            if !crate::textops::str_eq(role, rf.as_str()) {
                return None;
            }
        },
        None => {},
    }
    let ts = match &msg.timestamp {
        Some(t) => t.clone(),
        None => String::new(),
    };
    let text = msg.text_content();
    let head = crate::textops::take_chars(text.as_str(), 120);
    let head_str = crate::textops::string_from_chars(&head);
    let preview = crate::textops::replace_char(head_str.as_str(), '\n', " ↵ ");
    let mut role_owned = String::new();
    role_owned.append(role);
    Some(
        RecentMsg {
            project: file.project_name.clone(),
            session_id: file.session_id.clone(),
            timestamp: ts,
            role: role_owned,
            preview,
        },
    )
}

/// Recent lines ordered newest first.
pub open spec fn recent_sorted_desc(s: Seq<RecentMsg>) -> bool {
    forall|i: int, j: int| 0 <= i < j < s.len() ==> !lex_lt(s[i].timestamp@, s[j].timestamp@)
}

/// The recent lines ordered newest first: a permutation of the input.
pub fn sort_recent_desc(v: Vec<RecentMsg>) -> (r: Vec<RecentMsg>)
    ensures
        recent_sorted_desc(r@),
        r@.to_multiset() == v@.to_multiset(),
        r@.len() == v@.len(),
{
    broadcast use vstd::seq_lib::group_to_multiset_ensures;
    broadcast use vstd::multiset::group_multiset_axioms;

    let ghost orig = v@;
    let mut v = v;
    let mut out: Vec<RecentMsg> = Vec::new();
    proof {
        assert(out@.to_multiset().add(v@.to_multiset()) =~= orig.to_multiset());
    }
    while v.len() > 0
        invariant
            recent_sorted_desc(out@),
            out@.to_multiset().add(v@.to_multiset()) == orig.to_multiset(),
            out@.len() + v@.len() == orig.len(),
        decreases v@.len(),
    {
        let ghost vbefore = v@;
        let x = v.remove(0);
        proof {
            broadcast use vstd::seq_lib::group_to_multiset_ensures;
            broadcast use vstd::multiset::group_multiset_axioms;

            assert(vbefore[0] == x);
            assert(vbefore.remove(0).to_multiset() == vbefore.to_multiset().remove(x));
            assert(vbefore.contains(x));
            assert(vbefore.to_multiset().count(x) > 0);
        }
        let mut pos: usize = 0;
        loop
            invariant
                recent_sorted_desc(out@),
                0 <= pos <= out@.len(),
                forall|i: int|
                    0 <= i < pos ==> !lex_lt(#[trigger] out@[i].timestamp@, x.timestamp@),
            ensures
                0 <= pos <= out@.len(),
                forall|i: int|
                    0 <= i < pos ==> !lex_lt(#[trigger] out@[i].timestamp@, x.timestamp@),
                pos < out@.len() ==> lex_lt(out@[pos as int].timestamp@, x.timestamp@),
            decreases out@.len() - pos,
        {
            if pos >= out.len() {
                break ;
            }
            if !crate::textops::str_lt(out[pos].timestamp.as_str(), x.timestamp.as_str()) {
                pos += 1;
            } else {
                break ;
            }
        }
        let ghost obefore = out@;
        out.insert(pos, x);
        proof {
            broadcast use vstd::seq_lib::group_to_multiset_ensures;
            broadcast use vstd::multiset::group_multiset_axioms;

            assert(out@ == obefore.insert(pos as int, x));
            assert forall|i: int, j: int| 0 <= i < j < out@.len() implies !lex_lt(
                out@[i].timestamp@,
                out@[j].timestamp@,
            ) by {
                if i < pos && j == pos {
                } else if i == pos && j > pos {
                    assert(out@[j] == obefore[j - 1]);
                    if lex_lt(x.timestamp@, obefore[j - 1].timestamp@) {
                        assert(lex_lt(obefore[pos as int].timestamp@, x.timestamp@));
                        crate::reduce::lemma_lex_trans(
                            obefore[pos as int].timestamp@,
                            x.timestamp@,
                            obefore[j - 1].timestamp@,
                        );
                        if (pos as int) == j - 1 {
                            crate::reduce::lemma_lex_irrefl(obefore[pos as int].timestamp@);
                        }
                    }
                } else {
                }
            }
            lemma_recent_multiset_insert_mid(obefore, x, pos as int);
            assert(out@.to_multiset() == obefore.to_multiset().insert(x));
            assert(out@.to_multiset().add(v@.to_multiset()) =~= orig.to_multiset());
        }
    }
    proof {
        assert(v@.to_multiset().len() == 0);
        assert(out@.to_multiset() =~= orig.to_multiset());
    }
    out
}

/// Inserting anywhere in a sequence inserts into its multiset.
proof fn lemma_recent_multiset_insert_mid(s: Seq<RecentMsg>, x: RecentMsg, pos: int)
    requires
        0 <= pos <= s.len(),
    ensures
        s.insert(pos, x).to_multiset() == s.to_multiset().insert(x),
{
    broadcast use vstd::seq_lib::group_to_multiset_ensures;
    broadcast use vstd::multiset::group_multiset_axioms;

    let t = s.insert(pos, x);
    assert(t[pos] == x);
    assert(t.remove(pos) =~= s);
    assert(t.remove(pos).to_multiset() == t.to_multiset().remove(t[pos]));
    assert(t.contains(x));
    assert(t.to_multiset().count(x) > 0);
    assert(t.to_multiset() =~= s.to_multiset().insert(x));
}

/// The window a context view shows around a target line: the nearest message
/// at or after the line (or the last message), `context` messages before it,
/// and `context` after.
pub fn context_window(message_lines: &Vec<usize>, target_line: usize, context: usize) -> (r: (
    usize,
    usize,
    usize,
))
    requires
        message_lines@.len() > 0,
        context <= message_lines@.len(),
    ensures
        ({
            let (start, end, target) = r;
            &&& 0 <= target < message_lines@.len()
            &&& ((exists|k: int|
                0 <= k < message_lines@.len() && message_lines@[k] >= target_line) ==> (
            message_lines@[target as int] >= target_line && (forall|k: int|
                0 <= k < target ==> message_lines@[k] < target_line)))
            &&& ((forall|k: int|
                0 <= k < message_lines@.len() ==> message_lines@[k] < target_line) ==> target
                == message_lines@.len() - 1)
            &&& start == (if target >= context {
                target - context
            } else {
                0
            })
            &&& end as int == (if target + context + 1 <= message_lines@.len() {
                target + context + 1
            } else {
                message_lines@.len() as int
            })
        }),
{
    let n = message_lines.len();
    let mut target: usize = n - 1;
    let mut i: usize = 0;
    loop
        invariant_except_break
            target == n - 1,
        invariant
            n == message_lines@.len(),
            n > 0,
            0 <= i <= n,
            forall|k: int| 0 <= k < i ==> message_lines@[k] < target_line,
        ensures
            0 <= target < n,
            (exists|k: int| 0 <= k < n && message_lines@[k] >= target_line) ==> (
            message_lines@[target as int] >= target_line && (forall|k: int|
                0 <= k < target ==> message_lines@[k] < target_line)),
            (forall|k: int| 0 <= k < n ==> message_lines@[k] < target_line) ==> target == n - 1,
        decreases n - i,
    {
        if i >= n {
            break ;
        }
        if message_lines[i] >= target_line {
            target = i;
            break ;
        }
        i += 1;
    }
    let start = if target >= context {
        target - context
    } else {
        0
    };
    let end = if n - target > context {
        target + context + 1
    } else {
        n
    };
    (start, end, target)
}

} // verus!
