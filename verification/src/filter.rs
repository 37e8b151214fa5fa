//! The filter predicate and the request-side filter values. A filter holds
//! optional allow-lists for levels and domains (exact, case-sensitive
//! membership), optional keywords (any-of substring containment in the
//! message), and a context window size. An absent list accepts everything; a
//! present but empty list rejects everything for that dimension.

use crate::parser::classify;
use crate::parser::LogRecord;
use crate::parser::RecordView;
use crate::text::is_substring;
use crate::text::split_comma_list;
use crate::text::split_commas;
use crate::text::str_contains;
use crate::text::str_equal;
use vstd::prelude::*;

verus! {

/// The mathematical view of a filter.
#[verifier::ext_equal]
pub ghost struct FilterView {
    pub levels: Option<Seq<Seq<char>>>,
    pub domains: Option<Seq<Seq<char>>>,
    pub keywords: Option<Seq<Seq<char>>>,
    pub context: int,
}

/// A filter, as one request supplies it.
pub struct LogFilter {
    pub levels: Option<Vec<String>>,
    pub domains: Option<Vec<String>>,
    pub keywords: Option<Vec<String>>,
    pub context: usize,
}

impl View for LogFilter {
    type V = FilterView;

    open spec fn view(&self) -> FilterView {
        FilterView {
            levels: self.levels.deep_view(),
            domains: self.domains.deep_view(),
            keywords: self.keywords.deep_view(),
            context: self.context as int,
        }
    }
}

/// An absent allow-list accepts every value; a present one accepts exactly
/// its members.
pub open spec fn dimension_passes(allowed: Option<Seq<Seq<char>>>, value: Seq<char>) -> bool {
    match allowed {
        None => true,
        Some(items) => items.contains(value),
    }
}

/// Some keyword of `ks` occurs in `message` as a substring.
pub open spec fn any_keyword_in(ks: Seq<Seq<char>>, message: Seq<char>) -> bool {
    exists|t: int| 0 <= t < ks.len() && is_substring(#[trigger] ks[t], message)
}

/// An absent keyword list accepts every message; a present one requires some
/// keyword to occur in the message as a substring.
pub open spec fn keywords_pass(keywords: Option<Seq<Seq<char>>>, message: Seq<char>) -> bool {
    match keywords {
        None => true,
        Some(ks) => any_keyword_in(ks, message),
    }
}

/// The filter predicate: the conjunction of the three dimensions.
pub open spec fn record_passes(r: RecordView, f: FilterView) -> bool {
    dimension_passes(f.levels, r.level) && dimension_passes(f.domains, r.domain) && keywords_pass(
        f.keywords,
        r.message,
    )
}

/// A raw line matches a filter when it classifies under the grammar and the
/// record passes the predicate; unmatched lines never match.
pub open spec fn line_matches_spec(line: Seq<char>, f: FilterView) -> bool {
    match classify(line) {
        Some(r) => record_passes(r, f),
        None => false,
    }
}

/// A present but empty allow-list dimension rejects every record.
pub proof fn lemma_empty_allow_list_rejects(r: RecordView, f: FilterView)
    requires
        f.levels == Some(Seq::<Seq<char>>::empty()) || f.domains == Some(
            Seq::<Seq<char>>::empty(),
        ) || f.keywords == Some(Seq::<Seq<char>>::empty()),
    ensures
        !record_passes(r, f),
{
}

/// A keyword occurring in the message is a witness that the keyword
/// dimension passes.
proof fn lemma_keyword_witness(ks: Seq<Seq<char>>, message: Seq<char>, t: int)
    requires
        0 <= t < ks.len(),
        is_substring(ks[t], message),
    ensures
        keywords_pass(Some(ks), message),
{
    assert(any_keyword_in(ks, message));
}

/// Membership of `value` in a list of strings, by character equality.
pub(crate) fn list_contains(items: &Vec<String>, value: &str) -> (b: bool)
    ensures
        b == items.deep_view().contains(value@),
{
    let mut i: usize = 0;
    while i < items.len()
        invariant
            0 <= i <= items.len(),
            forall|t: int| 0 <= t < i ==> items.deep_view()[t] != value@,
        decreases items.len() - i,
    {
        if str_equal(items[i].as_str(), value) {
            assert(items.deep_view()[i as int] == value@);
            return true;
        }
        i += 1;
    }
    false
}

/// True when some keyword occurs in the message as a substring.
fn contains_any_keyword(keywords: &Vec<String>, message: &str) -> (b: bool)
    ensures
        b == keywords_pass(Some(keywords.deep_view()), message@),
{
    let mut i: usize = 0;
    while i < keywords.len()
        invariant
            0 <= i <= keywords.len(),
            forall|t: int| 0 <= t < i ==> !is_substring(keywords.deep_view()[t], message@),
        decreases keywords.len() - i,
    {
        if str_contains(message, keywords[i].as_str()) {
            proof {
                let ghost ks = keywords.deep_view();
                assert(ks[i as int] == keywords@[i as int]@);
                assert(is_substring(ks[i as int], message@));
                lemma_keyword_witness(ks, message@, i as int);
            }
            return true;
        }
        i += 1;
    }
    false
}

/// Decides whether a classified record passes the filter.
pub fn passes(record: &LogRecord, filter: &LogFilter) -> (b: bool)
    ensures
        b == record_passes(record@, filter@),
{
    let level_ok = match &filter.levels {
        None => true,
        Some(items) => list_contains(items, record.level.as_str()),
    };
    let domain_ok = match &filter.domains {
        None => true,
        Some(items) => list_contains(items, record.domain.as_str()),
    };
    let keyword_ok = match &filter.keywords {
        None => true,
        Some(items) => contains_any_keyword(items, record.message.as_str()),
    };
    level_ok && domain_ok && keyword_ok
}

/// Decides whether a raw line classifies and passes the filter.
pub fn line_matches(line: &str, filter: &LogFilter) -> (b: bool)
    ensures
        b == line_matches_spec(line@, filter@),
{
    match classify_line_local(line, filter) {
        Some(b) => b,
        None => false,
    }
}

/// Classifies, then applies the predicate; split out so the match on the
/// classification stays simple.
fn classify_line_local(line: &str, filter: &LogFilter) -> (r: Option<bool>)
    ensures
        match r {
            Some(b) => classify(line@) is Some && b == line_matches_spec(line@, filter@),
            None => classify(line@) is None,
        },
{
    match crate::parser::classify_line(line) {
        Some(rec) => Some(passes(&rec, filter)),
        None => None,
    }
}

/// The query parameters of one stream request, as the transport hands them
/// over: comma-separated lists, still unsplit.
pub struct LogFilterQuery {
    pub session_id: String,
    pub domains: Option<String>,
    pub levels: Option<String>,
    pub keywords: Option<String>,
    pub context: Option<usize>,
}

/// A present comma-separated parameter splits into trimmed items; an absent
/// one stays absent.
pub open spec fn split_opt(s: Option<Seq<char>>) -> Option<Seq<Seq<char>>> {
    match s {
        None => None,
        Some(x) => Some(split_commas(x)),
    }
}

/// Builds the filter a stream request asks for: each present list parameter
/// is split at commas and trimmed; an absent `context` means zero.
pub fn parse_filter_query(q: &LogFilterQuery) -> (f: LogFilter)
    ensures
        f@.levels == split_opt(q.levels.deep_view()),
        f@.domains == split_opt(q.domains.deep_view()),
        f@.keywords == split_opt(q.keywords.deep_view()),
        f@.context == match q.context {
            Some(c) => c as int,
            None => 0,
        },
{
    let levels = match &q.levels {
        Some(s) => Some(split_comma_list(s.as_str())),
        None => None,
    };
    let domains = match &q.domains {
        Some(s) => Some(split_comma_list(s.as_str())),
        None => None,
    };
    let keywords = match &q.keywords {
        Some(s) => Some(split_comma_list(s.as_str())),
        None => None,
    };
    let context = match q.context {
        Some(c) => c,
        None => 0,
    };
    LogFilter { levels, domains, keywords, context }
}

} // verus!
