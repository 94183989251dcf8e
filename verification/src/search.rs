//! The per-file scanner and the corpus search.
//!
//! A scan walks a session's lines in order: parse, filter chain (role, tool,
//! date range, branch, self-output exclusion), query match, and a shared hit
//! budget that is a hard ceiling on emitted hits. The corpus search validates
//! the query, selects files by project and session exclusion, and scans them
//! with one shared budget; within a file, hits keep line order.

use vstd::prelude::*;

use crate::corpus::SessionFile;
use crate::errors::SearchError;
use crate::matcher::{lowered_terms, match_found, match_label, Matcher};
use crate::models::{
    spec_message_of, spec_role_str, spec_text_content, spec_tool_list, Record,
};
use crate::parse::parse_record;
use crate::pattern::regex_valid;
use crate::textops::{contains_seq, join_with, lex_lt, lower_of, starts_with};

verus! {

/// The marker this tool wraps its own output in. A message containing it is,
/// unless explicitly included, the tool's own prior output and is skipped.
pub open spec fn self_output_marker() -> Seq<char> {
    "<smc-cc-cli>"@
}

/// The opening self-output marker.
pub fn self_output_tag_open() -> (r: &'static str)
    ensures
        r@ == self_output_marker(),
{
    "<smc-cc-cli>"
}

/// The closing self-output marker.
pub fn self_output_tag_close() -> (r: &'static str)
    ensures
        r@ == "</smc-cc-cli>"@,
{
    "</smc-cc-cli>"
}

/// Everything one search run is configured with.
pub struct SearchOpts {
    /// The query terms, in declaration order; must not be empty.
    pub queries: Vec<String>,
    /// Treat the terms as regular expressions.
    pub is_regex: bool,
    /// Require every term to match (AND) instead of any (OR).
    pub and_mode: bool,
    /// Keep only messages with exactly this role token.
    pub role: Option<String>,
    /// Keep only messages invoking a tool whose name contains this,
    /// case-insensitively.
    pub tool: Option<String>,
    /// Keep only files whose project name contains this, case-insensitively.
    pub project: Option<String>,
    /// Keep only messages whose timestamp is not below this string.
    pub after: Option<String>,
    /// Keep only messages whose timestamp is not above this string.
    pub before: Option<String>,
    /// Keep only messages whose git branch contains this, case-insensitively.
    pub branch: Option<String>,
    /// The shared hit budget; zero means unbounded.
    pub max_results: usize,
    /// Render markdown to standard output.
    pub stdout_md: bool,
    /// Save markdown to this file.
    pub md_file: Option<String>,
    /// Report per-project counts instead of hits.
    pub count_mode: bool,
    /// Report a condensed summary instead of hits.
    pub summary_mode: bool,
    /// Emit one JSON object per hit.
    pub json_mode: bool,
    /// Include messages carrying the self-output marker.
    pub include_smc: bool,
    /// Skip files whose session id starts with this.
    pub exclude_session: Option<String>,
}

impl SearchOpts {
    /// The query terms joined for display.
    pub fn query_display(&self) -> (r: String)
        ensures
            r@ == join_with(self.queries.deep_view(), ", "@),
    {
        crate::textops::join_strings(&self.queries, ", ")
    }
}

/// The compiled terms a search with these options matches against: the
/// patterns themselves, or the case-folded plain terms.
pub open spec fn spec_query_terms(opts: SearchOpts) -> Seq<Seq<char>> {
    if opts.is_regex {
        opts.queries.deep_view()
    } else {
        lowered_terms(opts.queries.deep_view())
    }
}

/// A message record passes the filter chain: role equality, case-insensitive
/// tool and branch containment, lexicographic timestamp range (a message
/// without a timestamp passes the date filters; one without a branch fails a
/// branch filter), and self-output exclusion.
pub open spec fn spec_passes_filters(rec: Record, opts: SearchOpts) -> bool {
    &&& !(rec is Other)
    &&& (opts.role matches Some(role) ==> spec_role_str(rec) == role@)
    &&& (opts.tool matches Some(t) ==> (exists|i: int|
        0 <= i < spec_tool_list(spec_message_of(rec)).len() && contains_seq(
            lower_of(spec_tool_list(spec_message_of(rec))[i]),
            lower_of(t@),
        )))
    &&& (opts.after matches Some(a) ==> (spec_message_of(rec).timestamp matches Some(ts)
        ==> !lex_lt(ts@, a@)))
    &&& (opts.before matches Some(b) ==> (spec_message_of(rec).timestamp matches Some(ts)
        ==> !lex_lt(b@, ts@)))
    &&& (opts.branch matches Some(br) ==> (spec_message_of(rec).git_branch matches Some(g)
        && contains_seq(lower_of(g@), lower_of(br@))))
    &&& (!opts.include_smc ==> !contains_seq(
        spec_text_content(spec_message_of(rec), true),
        self_output_marker(),
    ))
}

/// A record is a hit for these options: it passes the filter chain and the
/// query matches its extracted text.
pub open spec fn spec_line_match(rec: Record, opts: SearchOpts) -> bool {
    &&& spec_passes_filters(rec, opts)
    &&& match_found(
        opts.is_regex,
        opts.and_mode,
        spec_query_terms(opts),
        spec_text_content(spec_message_of(rec), true),
    )
}

/// The label the query reports for a hit record.
pub open spec fn spec_match_label(rec: Record, opts: SearchOpts) -> Seq<char> {
    match_label(
        opts.is_regex,
        opts.and_mode,
        spec_query_terms(opts),
        spec_text_content(spec_message_of(rec), true),
    )
}

/// The matcher is the compiled form of these options.
pub open spec fn matcher_for(m: Matcher, opts: SearchOpts) -> bool {
    &&& m.is_regex() == opts.is_regex
    &&& m.is_and() == opts.and_mode
    &&& m.terms() == spec_query_terms(opts)
}

/// Applies the filter chain and the matcher to one record: the match label
/// if the record is a hit, else `None`.
pub fn filter_match(rec: &Record, matcher: &Matcher, opts: &SearchOpts) -> (r: Option<String>)
    requires
        matcher_for(*matcher, *opts),
    ensures
        r is Some == spec_line_match(*rec, *opts),
        r matches Some(s) ==> s@ == spec_match_label(*rec, *opts),
{
    let msg = match rec.as_message_record() {
        Some(m) => m,
        None => {
            return None;
        },
    };
    match &opts.role {
        Some(role) => {
            if !crate::textops::str_eq(rec.role_str(), role.as_str()) {
                return None;
            }
        },
        None => {},
    }
    match &opts.tool {
        Some(tool_name) => {
            let tools = msg.tool_calls();
            let tool_lower = crate::textops::to_lowercase(tool_name.as_str());
            let needle = crate::textops::chars_of(tool_lower.as_str());
            let ghost list = spec_tool_list(spec_message_of(*rec));
            let mut i: usize = 0;
            let mut found = false;
            proof {
                assert(tools.deep_view() == list);
            }
            while i < tools.len() && !found
                invariant
                    tools.deep_view() == list,
                    list.len() == tools@.len(),
                    needle@ == lower_of(tool_name@),
                    0 <= i <= tools@.len(),
                    found ==> (exists|j: int|
                        0 <= j < list.len() && contains_seq(
                            lower_of(#[trigger] list[j]),
                            lower_of(tool_name@),
                        )),
                    !found ==> (forall|j: int|
                        0 <= j < i ==> !contains_seq(
                            lower_of(#[trigger] list[j]),
                            lower_of(tool_name@),
                        )),
                decreases tools@.len() - i,
            {
                let low = crate::textops::to_lowercase(tools[i].as_str());
                let hay = crate::textops::chars_of(low.as_str());
                if crate::textops::contains_chars(&hay, &needle) {
                    proof {
                        assert(contains_seq(lower_of(list[i as int]), lower_of(tool_name@)));
                    }
                    found = true;
                }
                i += 1;
            }
            if !found {
                return None;
            }
        },
        None => {},
    }
    match (&opts.after, &msg.timestamp) {
        (Some(after), Some(ts)) => {
            if crate::textops::str_lt(ts.as_str(), after.as_str()) {
                return None;
            }
        },
        _ => {},
    }
    match (&opts.before, &msg.timestamp) {
        (Some(before), Some(ts)) => {
            if crate::textops::str_lt(before.as_str(), ts.as_str()) {
                return None;
            }
        },
        _ => {},
    }
    match &opts.branch {
        Some(branch) => {
            match &msg.git_branch {
                Some(gb) => {
                    let gb_lower = crate::textops::to_lowercase(gb.as_str());
                    let br_lower = crate::textops::to_lowercase(branch.as_str());
                    if !crate::textops::str_contains(gb_lower.as_str(), br_lower.as_str()) {
                        return None;
                    }
                },
                None => {
                    return None;
                },
            }
        },
        None => {},
    }
    let text = msg.text_content();
    if !opts.include_smc {
        if crate::textops::str_contains(text.as_str(), self_output_tag_open()) {
            return None;
        }
    }
    matcher.first_matching_query(text.as_str())
}

/// One search hit: where it was found, the full record, and what matched.
pub struct SearchHit {
    /// The project the file belongs to.
    pub project: String,
    /// The session id of the file.
    pub session_id: String,
    /// The matching record, in full.
    pub record: Record,
    /// The 1-based line number within the file.
    pub line_num: usize,
    /// The label the matcher reported.
    pub matched_query: String,
}

/// Line `i` of a parsed file is a hit.
pub open spec fn line_hit(parsed: Seq<Option<Record>>, i: int, opts: SearchOpts) -> bool {
    parsed[i] matches Some(rec) && spec_line_match(rec, opts)
}

/// How many lines of a parsed file are hits.
pub open spec fn spec_hit_count(parsed: Seq<Option<Record>>, opts: SearchOpts) -> nat
    decreases parsed.len(),
{
    if parsed.len() == 0 {
        0
    } else {
        spec_hit_count(parsed.drop_last(), opts) + (if line_hit(parsed, parsed.len() - 1, opts) {
            1nat
        } else {
            0nat
        })
    }
}

/// Extending the prefix by one line adds that line's hit, if it is one.
proof fn lemma_hit_count_take(parsed: Seq<Option<Record>>, opts: SearchOpts, i: int)
    requires
        0 <= i < parsed.len(),
    ensures
        spec_hit_count(parsed.take(i + 1), opts) == spec_hit_count(parsed.take(i), opts) + (
        if line_hit(parsed, i, opts) {
            1nat
        } else {
            0nat
        }),
{
    assert(parsed.take(i + 1).drop_last() =~= parsed.take(i));
    assert(parsed.take(i + 1)[i] == parsed[i]);
}

/// A hit the scanner may emit for this parsed file.
pub open spec fn valid_hit(
    parsed: Seq<Option<Record>>,
    h: SearchHit,
    opts: SearchOpts,
    project: Seq<char>,
    session_id: Seq<char>,
) -> bool {
    &&& h.project@ == project
    &&& h.session_id@ == session_id
    &&& 1 <= h.line_num <= parsed.len()
    &&& (parsed[h.line_num - 1] matches Some(rec) && h.record == rec)
    &&& spec_line_match(h.record, opts)
    &&& h.matched_query@ == spec_match_label(h.record, opts)
}

/// Scans one file's parsed lines in order, yielding hits and advancing the
/// shared budget counter. With a positive budget the counter never exceeds
/// it; with a zero budget every hit of the file is emitted.
pub fn scan_parsed(
    project: &String,
    session_id: &String,
    parsed: Vec<Option<Record>>,
    matcher: &Matcher,
    opts: &SearchOpts,
    hit_count: &mut usize,
) -> (hits: Vec<SearchHit>)
    requires
        matcher_for(*matcher, *opts),
        *old(hit_count) + parsed@.len() <= usize::MAX,
    ensures
        *final (hit_count) == *old(hit_count) + hits@.len(),
        hits@.len() <= parsed@.len(),
        opts.max_results > 0 && *old(hit_count) >= opts.max_results ==> hits@.len() == 0,
        opts.max_results > 0 && *old(hit_count) < opts.max_results ==> *old(hit_count)
            + hits@.len() <= opts.max_results,
        opts.max_results == 0 ==> hits@.len() == spec_hit_count(parsed@, *opts),
        opts.max_results == 0 ==> (forall|i: int|
            0 <= i < parsed@.len() && line_hit(parsed@, i, *opts) ==> (exists|k: int|
                0 <= k < hits@.len() && #[trigger] hits@[k].line_num == i + 1)),
        forall|k: int|
            0 <= k < hits@.len() ==> valid_hit(parsed@, #[trigger] hits@[k], *opts, project@, session_id@),
        forall|k1: int, k2: int|
            0 <= k1 < k2 < hits@.len() ==> hits@[k1].line_num < hits@[k2].line_num,
{
    let ghost original = parsed@;
    let ghost c0 = *hit_count;
    let mut parsed = parsed;
    let mut hits: Vec<SearchHit> = Vec::new();
    let mut i: usize = 0;
    let max = opts.max_results;
    proof {
        assert(original.skip(0) =~= original);
        assert(original.take(0) =~= Seq::<Option<Record>>::empty());
    }
    loop
        invariant
            matcher_for(*matcher, *opts),
            c0 + original.len() <= usize::MAX,
            max == opts.max_results,
            0 <= i <= original.len(),
            parsed@ == original.skip(i as int),
            *hit_count == c0 + hits@.len(),
            hits@.len() <= i,
            max == 0 ==> hits@.len() == spec_hit_count(original.take(i as int), *opts),
            max == 0 ==> (forall|j: int|
                0 <= j < i && line_hit(original, j, *opts) ==> (exists|k: int|
                    0 <= k < hits@.len() && #[trigger] hits@[k].line_num == j + 1)),
            max > 0 && c0 >= max ==> hits@.len() == 0,
            max > 0 && c0 < max ==> c0 + hits@.len() <= max,
            forall|k: int|
                0 <= k < hits@.len() ==> valid_hit(original, #[trigger] hits@[k], *opts, project@, session_id@),
            forall|k: int| 0 <= k < hits@.len() ==> #[trigger] hits@[k].line_num <= i,
            forall|k1: int, k2: int|
                0 <= k1 < k2 < hits@.len() ==> hits@[k1].line_num < hits@[k2].line_num,
        ensures
            max == 0 ==> i == original.len(),
            *hit_count == c0 + hits@.len(),
            hits@.len() <= i <= original.len(),
            max == 0 ==> hits@.len() == spec_hit_count(original.take(i as int), *opts),
            max == 0 ==> (forall|j: int|
                0 <= j < i && line_hit(original, j, *opts) ==> (exists|k: int|
                    0 <= k < hits@.len() && #[trigger] hits@[k].line_num == j + 1)),
            max > 0 && c0 >= max ==> hits@.len() == 0,
            max > 0 && c0 < max ==> c0 + hits@.len() <= max,
            forall|k: int|
                0 <= k < hits@.len() ==> valid_hit(original, #[trigger] hits@[k], *opts, project@, session_id@),
            forall|k1: int, k2: int|
                0 <= k1 < k2 < hits@.len() ==> hits@[k1].line_num < hits@[k2].line_num,
        decreases original.len() - i,
    {
        if parsed.is_empty() {
            proof {
                assert(original.skip(i as int).len() == 0);
                assert(i == original.len());
            }
            break ;
        }
        if max > 0 && *hit_count >= max {
            break ;
        }
        proof {
            assert(original.skip(i as int)[0] == original[i as int]);
            assert(original.skip(i as int).remove(0) =~= original.skip(i + 1));
        }
        let head = parsed.remove(0);
        match head {
            Some(rec) => {
                match filter_match(&rec, matcher, opts) {
                    Some(matched) => {
                        *hit_count += 1;
                        let ghost before = hits@;
                        let hit = SearchHit {
                            project: project.clone(),
                            session_id: session_id.clone(),
                            record: rec,
                            line_num: i + 1,
                            matched_query: matched,
                        };
                        hits.push(hit);
                        proof {
                            assert(hits@ == before.push(hit));
                            assert(valid_hit(
                                original,
                                hits@[before.len() as int],
                                *opts,
                                project@,
                                session_id@,
                            ));
                            if max == 0 {
                                assert forall|j: int|
                                    0 <= j < i + 1 && line_hit(original, j, *opts) implies (
                                exists|k: int|
                                    0 <= k < hits@.len() && #[trigger] hits@[k].line_num == j
                                        + 1) by {
                                    if j < i {
                                        let k = choose|k: int|
                                            0 <= k < before.len() && #[trigger] before[k].line_num
                                                == j + 1;
                                        assert(hits@[k].line_num == j + 1);
                                    } else {
                                        assert(hits@[before.len() as int].line_num == j + 1);
                                    }
                                }
                            }
                        }
                    },
                    None => {
                        proof {
                            assert(!line_hit(original, i as int, *opts));
                        }
                    },
                }
            },
            None => {
                proof {
                    assert(!line_hit(original, i as int, *opts));
                }
            },
        }
        proof {
            lemma_hit_count_take(original, *opts, i as int);
        }
        i += 1;
    }
    proof {
        if max == 0 {
            assert(original.take(original.len() as int) =~= original);
        }
    }
    hits
}

/// Scans one file's raw lines: parse each line, then scan in order under the
/// shared budget. Hits carry the file's project and session id and 1-based
/// line numbers in increasing order.
pub fn search_file_lines(
    file: &SessionFile,
    lines: &Vec<String>,
    matcher: &Matcher,
    opts: &SearchOpts,
    hit_count: &mut usize,
) -> (hits: Vec<SearchHit>)
    requires
        matcher_for(*matcher, *opts),
        *old(hit_count) + lines@.len() <= usize::MAX,
    ensures
        *final (hit_count) == *old(hit_count) + hits@.len(),
        hits@.len() <= lines@.len(),
        opts.max_results > 0 && *old(hit_count) >= opts.max_results ==> hits@.len() == 0,
        opts.max_results > 0 && *old(hit_count) < opts.max_results ==> *old(hit_count)
            + hits@.len() <= opts.max_results,
        forall|k: int|
            0 <= k < hits@.len() ==> {
                &&& (#[trigger] hits@[k]).project@ == file.project_name@
                &&& hits@[k].session_id@ == file.session_id@
                &&& 1 <= hits@[k].line_num <= lines@.len()
                &&& spec_line_match(hits@[k].record, *opts)
                &&& hits@[k].matched_query@ == spec_match_label(hits@[k].record, *opts)
            },
        forall|k1: int, k2: int|
            0 <= k1 < k2 < hits@.len() ==> hits@[k1].line_num < hits@[k2].line_num,
{
    let mut parsed: Vec<Option<Record>> = Vec::new();
    let mut i: usize = 0;
    while i < lines.len()
        invariant
            0 <= i <= lines@.len(),
            parsed@.len() == i,
        decreases lines@.len() - i,
    {
        parsed.push(parse_record(lines[i].as_str()));
        i += 1;
    }
    scan_parsed(&file.project_name, &file.session_id, parsed, matcher, opts, hit_count)
}

/// One session file together with its raw lines, the unit the corpus search
/// works on.
pub struct SessionLines {
    /// The file's identity and metadata.
    pub file: SessionFile,
    /// The file's lines, in order; an unreadable file is simply absent.
    pub lines: Vec<String>,
}

/// The total number of lines across the sessions.
pub open spec fn spec_total_lines(sessions: Seq<SessionLines>) -> nat
    decreases sessions.len(),
{
    if sessions.len() == 0 {
        0
    } else {
        sessions[0].lines@.len() + spec_total_lines(sessions.drop_first())
    }
}

/// A file takes part in the search: its project name contains the project
/// filter, case-insensitively, and its session id does not start with the
/// excluded prefix.
pub open spec fn spec_file_selected(f: SessionFile, opts: SearchOpts) -> bool {
    &&& (opts.project matches Some(p) ==> contains_seq(
        lower_of(f.project_name@),
        lower_of(p@),
    ))
    &&& (opts.exclude_session matches Some(e) ==> !starts_with(f.session_id@, e@))
}

/// Whether a file takes part in the search.
pub fn file_selected(f: &SessionFile, opts: &SearchOpts) -> (r: bool)
    ensures
        r == spec_file_selected(*f, *opts),
{
    match &opts.project {
        Some(p) => {
            let proj_lower = crate::textops::to_lowercase(f.project_name.as_str());
            let p_lower = crate::textops::to_lowercase(p.as_str());
            if !crate::textops::str_contains(proj_lower.as_str(), p_lower.as_str()) {
                return false;
            }
        },
        None => {},
    }
    match &opts.exclude_session {
        Some(e) => {
            if crate::textops::str_starts_with(f.session_id.as_str(), e.as_str()) {
                return false;
            }
        },
        None => {},
    }
    true
}

/// Searches the whole corpus sequentially: validates the query, selects
/// files, and scans them in order under one shared budget. Fails, before any
/// scanning, exactly on an empty query list or, in regex mode, on the first
/// term that does not compile; per-line and per-file problems never fail.
pub fn search(sessions: &Vec<SessionLines>, opts: &SearchOpts) -> (r: Result<
    Vec<SearchHit>,
    SearchError,
>)
    requires
        spec_total_lines(sessions@) <= usize::MAX,
    ensures
        (r is Err) == (opts.queries@.len() == 0 || (opts.is_regex && (exists|i: int|
            0 <= i < opts.queries@.len() && !regex_valid(
                #[trigger] opts.queries.deep_view()[i],
            )))),
        r matches Err(e) ==> match e {
            SearchError::EmptyQuery => opts.queries@.len() == 0,
            SearchError::InvalidRegex { pattern } => {
                &&& opts.queries@.len() > 0
                &&& opts.is_regex
                &&& (exists|i: int|
                    {
                        &&& 0 <= i < opts.queries@.len()
                        &&& !regex_valid(opts.queries.deep_view()[i])
                        &&& (forall|j: int|
                            0 <= j < i ==> regex_valid(#[trigger] opts.queries.deep_view()[j]))
                        &&& pattern@ == opts.queries.deep_view()[i]
                    })
            },
        },
        r matches Ok(hits) ==> {
            &&& (opts.max_results > 0 ==> hits@.len() <= opts.max_results)
            &&& (forall|k: int|
                0 <= k < hits@.len() ==> {
                    &&& spec_line_match((#[trigger] hits@[k]).record, *opts)
                    &&& hits@[k].matched_query@ == spec_match_label(hits@[k].record, *opts)
                    &&& (exists|fi: int|
                        {
                            &&& 0 <= fi < sessions@.len()
                            &&& spec_file_selected(#[trigger] sessions@[fi].file, *opts)
                            &&& hits@[k].project@ == sessions@[fi].file.project_name@
                            &&& hits@[k].session_id@ == sessions@[fi].file.session_id@
                            &&& 1 <= hits@[k].line_num <= sessions@[fi].lines@.len()
                        })
                })
        },
{
    if opts.queries.len() == 0 {
        return Err(SearchError::EmptyQuery);
    }
    let matcher = match Matcher::new(&opts.queries, opts.is_regex, opts.and_mode) {
        Ok(m) => m,
        Err(e) => {
            return Err(e);
        },
    };
    proof {
        assert(matcher_for(matcher, *opts));
    }
    let mut hits_all: Vec<SearchHit> = Vec::new();
    let mut count: usize = 0;
    let mut fi: usize = 0;
    let n = sessions.len();
    proof {
        assert(sessions@.skip(0) =~= sessions@);
    }
    while fi < n
        invariant
            matcher_for(matcher, *opts),
            n == sessions@.len(),
            0 <= fi <= n,
            count == hits_all@.len(),
            hits_all@.len() + spec_total_lines(sessions@.skip(fi as int)) <= usize::MAX,
            opts.max_results > 0 ==> count <= opts.max_results,
            forall|k: int|
                0 <= k < hits_all@.len() ==> {
                    &&& spec_line_match((#[trigger] hits_all@[k]).record, *opts)
                    &&& hits_all@[k].matched_query@ == spec_match_label(hits_all@[k].record, *opts)
                    &&& (exists|f2: int|
                        {
                            &&& 0 <= f2 < sessions@.len()
                            &&& spec_file_selected(#[trigger] sessions@[f2].file, *opts)
                            &&& hits_all@[k].project@ == sessions@[f2].file.project_name@
                            &&& hits_all@[k].session_id@ == sessions@[f2].file.session_id@
                            &&& 1 <= hits_all@[k].line_num <= sessions@[f2].lines@.len()
                        })
                },
        decreases n - fi,
    {
        proof {
            assert(sessions@.skip(fi as int)[0] == sessions@[fi as int]);
            assert(sessions@.skip(fi as int).drop_first() =~= sessions@.skip(fi + 1));
        }
        let session = &sessions[fi];
        if file_selected(&session.file, opts) {
            let ghost before = hits_all@;
            let ghost count0 = count;
            let mut file_hits = search_file_lines(
                &session.file,
                &session.lines,
                &matcher,
                opts,
                &mut count,
            );
            proof {
                assert(count == count0 + file_hits@.len());
            }
            hits_all.append(&mut file_hits);
            proof {
                assert forall|k: int|
                    0 <= k < hits_all@.len() implies {
                    &&& spec_line_match((#[trigger] hits_all@[k]).record, *opts)
                    &&& hits_all@[k].matched_query@ == spec_match_label(hits_all@[k].record, *opts)
                    &&& (exists|f2: int|
                        {
                            &&& 0 <= f2 < sessions@.len()
                            &&& spec_file_selected(#[trigger] sessions@[f2].file, *opts)
                            &&& hits_all@[k].project@ == sessions@[f2].file.project_name@
                            &&& hits_all@[k].session_id@ == sessions@[f2].file.session_id@
                            &&& 1 <= hits_all@[k].line_num <= sessions@[f2].lines@.len()
                        })
                } by {
                    if k < before.len() {
                        assert(hits_all@[k] == before[k]);
                    } else {
                        let h = hits_all@[k];
                        assert(spec_file_selected(sessions@[fi as int].file, *opts));
                        assert(h.project@ == sessions@[fi as int].file.project_name@);
                    }
                }
            }
        }
        fi += 1;
    }
    Ok(hits_all)
}

} // verus!
