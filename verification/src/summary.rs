//! The summary aggregator: folds the classified, filter-passing records of a
//! log text into running statistics — a total, per-level counts, the set of
//! domains seen, and the first and last passing timestamps in file order.
//! Aggregation filters by levels and domains only; keywords and context play
//! no role here.

use crate::filter::dimension_passes;
use crate::filter::list_contains;
use crate::parser::classify;
use crate::parser::classify_line;
use crate::parser::RecordView;
use crate::text::split_lines;
use crate::text::split_text_lines;
use vstd::prelude::*;

verus! {

/// The mathematical view of a summary.
#[verifier::ext_equal]
pub ghost struct SummaryView {
    pub total_lines: int,
    pub levels: Seq<(Seq<char>, int)>,
    pub unique_domains: Seq<Seq<char>>,
    pub start_timestamp: Option<Seq<char>>,
    pub stop_timestamp: Option<Seq<char>>,
}

/// Aggregate statistics over one log text: the count of lines that matched
/// the grammar and passed the filter, per-level counts in first-seen order,
/// the distinct domains in first-seen order, and the timestamps of the first
/// and last passing lines.
pub struct LogSummary {
    pub total_lines: usize,
    pub levels: Vec<(String, usize)>,
    pub unique_domains: Vec<String>,
    pub start_timestamp: Option<String>,
    pub stop_timestamp: Option<String>,
}

/// The view of an association list of level counts.
pub open spec fn levels_view(levels: Seq<(String, usize)>) -> Seq<(Seq<char>, int)> {
    Seq::new(levels.len(), |i: int| (levels[i].0@, levels[i].1 as int))
}

impl View for LogSummary {
    type V = SummaryView;

    open spec fn view(&self) -> SummaryView {
        SummaryView {
            total_lines: self.total_lines as int,
            levels: levels_view(self.levels@),
            unique_domains: self.unique_domains.deep_view(),
            start_timestamp: self.start_timestamp.deep_view(),
            stop_timestamp: self.stop_timestamp.deep_view(),
        }
    }
}

/// The summary of no lines at all.
pub open spec fn summary_empty() -> SummaryView {
    SummaryView {
        total_lines: 0,
        levels: Seq::empty(),
        unique_domains: Seq::empty(),
        start_timestamp: None,
        stop_timestamp: None,
    }
}

/// A record passes aggregation when its level and domain pass their
/// allow-lists.
pub open spec fn record_passes_ld(
    r: RecordView,
    domains: Option<Seq<Seq<char>>>,
    levels: Option<Seq<Seq<char>>>,
) -> bool {
    dimension_passes(levels, r.level) && dimension_passes(domains, r.domain)
}

/// A line counts towards the summary when it classifies and its record
/// passes.
pub open spec fn line_passes_ld(
    line: Seq<char>,
    domains: Option<Seq<Seq<char>>>,
    levels: Option<Seq<Seq<char>>>,
) -> bool {
    match classify(line) {
        Some(r) => record_passes_ld(r, domains, levels),
        None => false,
    }
}

/// One more observation of `level`: the count of its first entry rises by
/// one, a level never seen before appends at the end with count one.
pub open spec fn bump_level(levels: Seq<(Seq<char>, int)>, level: Seq<char>) -> Seq<
    (Seq<char>, int),
>
    decreases levels.len(),
{
    if levels.len() == 0 {
        seq![(level, 1int)]
    } else if levels[0].0 == level {
        seq![(levels[0].0, levels[0].1 + 1)] + levels.skip(1)
    } else {
        seq![levels[0]] + bump_level(levels.skip(1), level)
    }
}

/// One more observation of `domain`, kept once in first-seen order.
pub open spec fn add_domain(domains: Seq<Seq<char>>, domain: Seq<char>) -> Seq<Seq<char>> {
    if domains.contains(domain) {
        domains
    } else {
        domains.push(domain)
    }
}

/// Folds one line into a summary: unmatched or filtered-out lines change
/// nothing; a passing record raises the total and its level's count, records
/// its domain, sets the start timestamp once, and always renews the stop
/// timestamp.
pub open spec fn summary_step(
    s: SummaryView,
    line: Seq<char>,
    domains: Option<Seq<Seq<char>>>,
    levels: Option<Seq<Seq<char>>>,
) -> SummaryView {
    match classify(line) {
        None => s,
        Some(r) => {
            if record_passes_ld(r, domains, levels) {
                SummaryView {
                    total_lines: s.total_lines + 1,
                    levels: bump_level(s.levels, r.level),
                    unique_domains: add_domain(s.unique_domains, r.domain),
                    start_timestamp: if s.start_timestamp is None {
                        Some(r.timestamp)
                    } else {
                        s.start_timestamp
                    },
                    stop_timestamp: Some(r.timestamp),
                }
            } else {
                s
            }
        },
    }
}

/// The summary of a sequence of lines under level/domain allow-lists.
pub open spec fn summarize(
    lines: Seq<Seq<char>>,
    domains: Option<Seq<Seq<char>>>,
    levels: Option<Seq<Seq<char>>>,
) -> SummaryView
    decreases lines.len(),
{
    if lines.len() == 0 {
        summary_empty()
    } else {
        summary_step(summarize(lines.drop_last(), domains, levels), lines.last(), domains, levels)
    }
}

/// The sum of all level counts.
pub open spec fn sum_counts(levels: Seq<(Seq<char>, int)>) -> int
    decreases levels.len(),
{
    if levels.len() == 0 {
        0
    } else {
        levels[0].1 + sum_counts(levels.skip(1))
    }
}

/// Bumping a level raises the sum of counts by exactly one.
proof fn lemma_bump_level_sum(levels: Seq<(Seq<char>, int)>, level: Seq<char>)
    ensures
        sum_counts(bump_level(levels, level)) == sum_counts(levels) + 1,
    decreases levels.len(),
{
    let b = bump_level(levels, level);
    if levels.len() == 0 {
        assert(b.skip(1) =~~= Seq::<(Seq<char>, int)>::empty());
        assert(sum_counts(b.skip(1)) == 0);
        assert(b[0].1 == 1);
        assert(sum_counts(b) == b[0].1 + sum_counts(b.skip(1)));
    } else if levels[0].0 == level {
        assert(b.skip(1) =~~= levels.skip(1));
        assert(b[0].1 == levels[0].1 + 1);
        assert(sum_counts(b) == b[0].1 + sum_counts(b.skip(1)));
        assert(sum_counts(levels) == levels[0].1 + sum_counts(levels.skip(1)));
    } else {
        lemma_bump_level_sum(levels.skip(1), level);
        assert(b.skip(1) =~~= bump_level(levels.skip(1), level));
        assert(b[0] == levels[0]);
        assert(sum_counts(b) == b[0].1 + sum_counts(b.skip(1)));
        assert(sum_counts(levels) == levels[0].1 + sum_counts(levels.skip(1)));
    }
}

/// Bumping keeps every count at least one.
proof fn lemma_bump_level_positive(levels: Seq<(Seq<char>, int)>, level: Seq<char>)
    requires
        forall|t: int| 0 <= t < levels.len() ==> (#[trigger] levels[t]).1 >= 1,
    ensures
        forall|t: int|
            0 <= t < bump_level(levels, level).len() ==> (#[trigger] bump_level(levels, level)[t]).1
                >= 1,
    decreases levels.len(),
{
    let b = bump_level(levels, level);
    if levels.len() == 0 {
        assert(b[0].1 >= 1);
        assert(b.len() == 1);
    } else if levels[0].0 == level {
        assert forall|t: int| 0 <= t < b.len() implies (#[trigger] b[t]).1 >= 1 by {
            if t > 0 {
                assert(b[t] == levels.skip(1)[t - 1]);
                assert(levels.skip(1)[t - 1] == levels[t]);
            }
        }
    } else {
        assert forall|t: int| 0 <= t < levels.skip(1).len() implies (#[trigger] levels.skip(
            1,
        )[t]).1 >= 1 by {
            assert(levels.skip(1)[t] == levels[t + 1]);
        }
        lemma_bump_level_positive(levels.skip(1), level);
        let brest = bump_level(levels.skip(1), level);
        assert forall|t: int| 0 <= t < b.len() implies (#[trigger] b[t]).1 >= 1 by {
            if t == 0 {
                assert(b[0] == levels[0]);
            } else {
                assert(b[t] == brest[t - 1]);
            }
        }
    }
}

/// When every count is at least one, each count is at most the sum.
proof fn lemma_count_le_sum(levels: Seq<(Seq<char>, int)>, t: int)
    requires
        forall|u: int| 0 <= u < levels.len() ==> (#[trigger] levels[u]).1 >= 1,
        0 <= t < levels.len(),
    ensures
        levels[t].1 <= sum_counts(levels),
    decreases levels.len(),
{
    if t == 0 {
        lemma_sum_counts_nonneg(levels.skip(1));
    } else {
        assert forall|u: int| 0 <= u < levels.skip(1).len() implies (#[trigger] levels.skip(
            1,
        )[u]).1 >= 1 by {
            assert(levels.skip(1)[u] == levels[u + 1]);
        }
        lemma_count_le_sum(levels.skip(1), t - 1);
        assert(levels.skip(1)[t - 1] == levels[t]);
    }
}

/// A sum of counts that are each at least one is not negative.
proof fn lemma_sum_counts_nonneg(levels: Seq<(Seq<char>, int)>)
    requires
        forall|u: int| 0 <= u < levels.len() ==> (#[trigger] levels[u]).1 >= 1,
    ensures
        sum_counts(levels) >= 0,
    decreases levels.len(),
{
    if levels.len() > 0 {
        assert forall|u: int| 0 <= u < levels.skip(1).len() implies (#[trigger] levels.skip(
            1,
        )[u]).1 >= 1 by {
            assert(levels.skip(1)[u] == levels[u + 1]);
        }
        lemma_sum_counts_nonneg(levels.skip(1));
    }
}

/// In every summary the level counts add up to the total: each passing line
/// raises exactly one count and the total together.
pub proof fn lemma_levels_sum_is_total(
    lines: Seq<Seq<char>>,
    domains: Option<Seq<Seq<char>>>,
    levels: Option<Seq<Seq<char>>>,
)
    ensures
        sum_counts(summarize(lines, domains, levels).levels) == summarize(
            lines,
            domains,
            levels,
        ).total_lines,
    decreases lines.len(),
{
    if lines.len() > 0 {
        lemma_levels_sum_is_total(lines.drop_last(), domains, levels);
        let prev = summarize(lines.drop_last(), domains, levels);
        match classify(lines.last()) {
            None => {},
            Some(r) => {
                if record_passes_ld(r, domains, levels) {
                    lemma_bump_level_sum(prev.levels, r.level);
                }
            },
        }
    }
}

/// The structural facts every summary satisfies: the total is bounded by the
/// number of lines, every level count is at least one and at most the total,
/// and domains are seen exactly when lines pass.
pub proof fn lemma_summarize_bounds(
    lines: Seq<Seq<char>>,
    domains: Option<Seq<Seq<char>>>,
    levels: Option<Seq<Seq<char>>>,
)
    ensures
        0 <= summarize(lines, domains, levels).total_lines <= lines.len(),
        forall|t: int|
            0 <= t < summarize(lines, domains, levels).levels.len() ==> 1 <= (
            #[trigger] summarize(lines, domains, levels).levels[t]).1 <= summarize(
                lines,
                domains,
                levels,
            ).total_lines,
        (summarize(lines, domains, levels).unique_domains.len() == 0 <==> summarize(
            lines,
            domains,
            levels,
        ).total_lines == 0),
    decreases lines.len(),
{
    let s = summarize(lines, domains, levels);
    if lines.len() > 0 {
        lemma_summarize_bounds(lines.drop_last(), domains, levels);
        let prev = summarize(lines.drop_last(), domains, levels);
        match classify(lines.last()) {
            None => {},
            Some(r) => {
                if record_passes_ld(r, domains, levels) {
                    lemma_bump_level_positive(prev.levels, r.level);
                    lemma_levels_sum_is_total(lines, domains, levels);
                    lemma_levels_sum_is_total(lines.drop_last(), domains, levels);
                    assert forall|t: int| 0 <= t < s.levels.len() implies 1 <= (
                    #[trigger] s.levels[t]).1 <= s.total_lines by {
                        lemma_count_le_sum(s.levels, t);
                    }
                }
            },
        }
    }
}

/// The count of lines that match the grammar at all.
pub open spec fn matching_line_count(lines: Seq<Seq<char>>) -> int
    decreases lines.len(),
{
    if lines.len() == 0 {
        0
    } else {
        matching_line_count(lines.drop_last()) + if classify(lines.last()) is Some {
            1int
        } else {
            0int
        }
    }
}

/// With no filter at all, the total counts exactly the lines that match the
/// grammar.
pub proof fn lemma_unfiltered_total_counts_matches(lines: Seq<Seq<char>>)
    ensures
        summarize(lines, None, None).total_lines == matching_line_count(lines),
    decreases lines.len(),
{
    if lines.len() > 0 {
        lemma_unfiltered_total_counts_matches(lines.drop_last());
    }
}

/// A level allow-list disjoint from every classified line's level yields the
/// empty summary: zero total, no level counts, no domains, no timestamps.
pub proof fn lemma_disjoint_levels_empty_summary(
    lines: Seq<Seq<char>>,
    domains: Option<Seq<Seq<char>>>,
    allowed: Seq<Seq<char>>,
)
    requires
        forall|k: int|
            0 <= k < lines.len() ==> match classify(#[trigger] lines[k]) {
                Some(r) => !allowed.contains(r.level),
                None => true,
            },
    ensures
        summarize(lines, domains, Some(allowed)) == summary_empty(),
    decreases lines.len(),
{
    if lines.len() > 0 {
        assert forall|k: int| 0 <= k < lines.drop_last().len() implies match classify(
            #[trigger] lines.drop_last()[k],
        ) {
            Some(r) => !allowed.contains(r.level),
            None => true,
        } by {
            assert(lines.drop_last()[k] == lines[k]);
        }
        lemma_disjoint_levels_empty_summary(lines.drop_last(), domains, allowed);
        assert(lines.last() == lines[lines.len() - 1]);
    }
}

/// A domain allow-list disjoint from every classified line's domain yields
/// the empty summary as well.
pub proof fn lemma_disjoint_domains_empty_summary(
    lines: Seq<Seq<char>>,
    allowed: Seq<Seq<char>>,
    levels: Option<Seq<Seq<char>>>,
)
    requires
        forall|k: int|
            0 <= k < lines.len() ==> match classify(#[trigger] lines[k]) {
                Some(r) => !allowed.contains(r.domain),
                None => true,
            },
    ensures
        summarize(lines, Some(allowed), levels) == summary_empty(),
    decreases lines.len(),
{
    if lines.len() > 0 {
        assert forall|k: int| 0 <= k < lines.drop_last().len() implies match classify(
            #[trigger] lines.drop_last()[k],
        ) {
            Some(r) => !allowed.contains(r.domain),
            None => true,
        } by {
            assert(lines.drop_last()[k] == lines[k]);
        }
        lemma_disjoint_domains_empty_summary(lines.drop_last(), allowed, levels);
        assert(lines.last() == lines[lines.len() - 1]);
    }
}

/// `bump_level` updates the first entry carrying the level.
proof fn lemma_bump_level_at(levels: Seq<(Seq<char>, int)>, level: Seq<char>, i: int)
    requires
        0 <= i < levels.len(),
        levels[i].0 == level,
        forall|t: int| 0 <= t < i ==> (#[trigger] levels[t]).0 != level,
    ensures
        bump_level(levels, level) == levels.update(i, (levels[i].0, levels[i].1 + 1)),
    decreases i,
{
    if i == 0 {
        assert(bump_level(levels, level) =~~= levels.update(0, (levels[0].0, levels[0].1 + 1)));
    } else {
        assert forall|t: int| 0 <= t < i - 1 implies (#[trigger] levels.skip(1)[t]).0 != level by {
            assert(levels.skip(1)[t] == levels[t + 1]);
        }
        assert(levels.skip(1)[i - 1] == levels[i]);
        lemma_bump_level_at(levels.skip(1), level, i - 1);
        assert(bump_level(levels, level) =~~= levels.update(i, (levels[i].0, levels[i].1 + 1)));
    }
}

/// A level never seen before appends at the end with count one.
proof fn lemma_bump_level_absent(levels: Seq<(Seq<char>, int)>, level: Seq<char>)
    requires
        forall|t: int| 0 <= t < levels.len() ==> (#[trigger] levels[t]).0 != level,
    ensures
        bump_level(levels, level) == levels.push((level, 1int)),
    decreases levels.len(),
{
    if levels.len() == 0 {
        assert(bump_level(levels, level) =~~= levels.push((level, 1int)));
    } else {
        assert forall|t: int| 0 <= t < levels.skip(1).len() implies (#[trigger] levels.skip(
            1,
        )[t]).0 != level by {
            assert(levels.skip(1)[t] == levels[t + 1]);
        }
        lemma_bump_level_absent(levels.skip(1), level);
        assert(bump_level(levels, level) =~~= levels.push((level, 1int)));
    }
}

/// Raises the count of `level` in the association list, appending a fresh
/// entry with count one when the level is new.
fn bump_level_exec(levels: &mut Vec<(String, usize)>, level: &String)
    requires
        forall|t: int| 0 <= t < old(levels)@.len() ==> (#[trigger] old(levels)@[t]).1 < usize::MAX,
    ensures
        levels_view(final(levels)@) == bump_level(levels_view(old(levels)@), level@),
{
    let ghost lview = levels_view(old(levels)@);
    let mut j: usize = 0;
    while j < levels.len()
        invariant
            levels@ == old(levels)@,
            lview == levels_view(old(levels)@),
            forall|t: int|
                0 <= t < old(levels)@.len() ==> (#[trigger] old(levels)@[t]).1 < usize::MAX,
            0 <= j <= levels@.len(),
            forall|t: int| 0 <= t < j ==> (#[trigger] levels@[t]).0@ != level@,
        decreases levels@.len() - j,
    {
        if crate::text::str_equal(levels[j].0.as_str(), level.as_str()) {
            let cur = levels[j].1;
            let entry = levels.remove(j);
            levels.insert(j, (entry.0, cur + 1));
            proof {
                assert(lview.len() == old(levels)@.len());
                assert(levels_view(levels@).len() == levels@.len());
                assert(levels@ =~~= old(levels)@.update(
                    j as int,
                    (old(levels)@[j as int].0, (cur + 1) as usize),
                ));
                assert forall|t: int| 0 <= t < j implies (#[trigger] lview[t]).0 != level@ by {
                    assert(lview[t].0 == old(levels)@[t].0@);
                }
                assert(lview[j as int].0 == level@);
                lemma_bump_level_at(lview, level@, j as int);
                assert(levels_view(levels@) =~~= lview.update(
                    j as int,
                    (lview[j as int].0, lview[j as int].1 + 1),
                ));
            }
            return ;
        }
        j += 1;
    }
    levels.push((level.clone(), 1));
    proof {
        assert(lview.len() == old(levels)@.len());
        assert(levels_view(levels@).len() == levels@.len());
        assert forall|t: int| 0 <= t < lview.len() implies (#[trigger] lview[t]).0 != level@ by {
            assert(lview[t].0 == old(levels)@[t].0@);
        }
        lemma_bump_level_absent(lview, level@);
        assert(levels_view(levels@) =~~= lview.push((level@, 1int)));
    }
}

/// Parses a log text and folds it into a summary, optionally filtering by
/// domain and level allow-lists, exactly as `summarize` describes.
pub fn parse_log(
    log_text: &str,
    filter_domains: Option<&Vec<String>>,
    filter_levels: Option<&Vec<String>>,
) -> (summary: LogSummary)
    ensures
        summary@ == summarize(
            split_lines(log_text@),
            filter_domains.deep_view(),
            filter_levels.deep_view(),
        ),
{
    let ghost d = filter_domains.deep_view();
    let ghost l = filter_levels.deep_view();
    let lines = split_text_lines(log_text);
    let ghost lv = lines.deep_view();
    let mut total_lines: usize = 0;
    let mut levels: Vec<(String, usize)> = Vec::new();
    let mut unique_domains: Vec<String> = Vec::new();
    let mut start_timestamp: Option<String> = None;
    let mut stop_timestamp: Option<String> = None;
    let mut i: usize = 0;
    proof {
        assert(lv.take(0) =~~= Seq::<Seq<char>>::empty());
        assert(levels_view(levels@) =~~= Seq::<(Seq<char>, int)>::empty());
        assert(unique_domains.deep_view() =~~= Seq::<Seq<char>>::empty());
    }
    while i < lines.len()
        invariant
            0 <= i <= lines@.len(),
            lv == lines.deep_view(),
            lv.len() == lines@.len(),
            d == filter_domains.deep_view(),
            l == filter_levels.deep_view(),
            total_lines as int == summarize(lv.take(i as int), d, l).total_lines,
            levels_view(levels@) == summarize(lv.take(i as int), d, l).levels,
            unique_domains.deep_view() == summarize(lv.take(i as int), d, l).unique_domains,
            start_timestamp.deep_view() == summarize(lv.take(i as int), d, l).start_timestamp,
            stop_timestamp.deep_view() == summarize(lv.take(i as int), d, l).stop_timestamp,
        decreases lines@.len() - i,
    {
        let ghost pre = summarize(lv.take(i as int), d, l);
        proof {
            assert(lv.take(i + 1).drop_last() =~~= lv.take(i as int));
            assert(lv.take(i + 1).last() == lv[i as int]);
            assert(summarize(lv.take(i + 1), d, l) == summary_step(pre, lv[i as int], d, l));
            assert(lines@[i as int]@ == lv[i as int]);
        }
        match classify_line(lines[i].as_str()) {
            None => {
                proof {
                    assert(classify(lv[i as int]) is None);
                }
            },
            Some(rec) => {
                let lvl_ok = match filter_levels {
                    None => true,
                    Some(items) => list_contains(items, rec.level.as_str()),
                };
                let dom_ok = match filter_domains {
                    None => true,
                    Some(items) => list_contains(items, rec.domain.as_str()),
                };
                if lvl_ok && dom_ok {
                    proof {
                        assert(record_passes_ld(rec@, d, l));
                        lemma_summarize_bounds(lv.take(i as int), d, l);
                        assert(total_lines < usize::MAX);
                        assert forall|t: int| 0 <= t < levels@.len() implies (
                        #[trigger] levels@[t]).1 < usize::MAX by {
                            assert(levels_view(levels@)[t].1 == levels@[t].1 as int);
                        }
                    }
                    total_lines = total_lines + 1;
                    bump_level_exec(&mut levels, &rec.level);
                    proof {
                        assert(rec@.level == rec.level@);
                    }
                    let ghost prior_doms = unique_domains.deep_view();
                    let ghost prior_vec = unique_domains@;
                    if !list_contains(&unique_domains, rec.domain.as_str()) {
                        unique_domains.push(rec.domain.clone());
                        proof {
                            assert(unique_domains.deep_view() =~~= prior_doms.push(rec@.domain))
                                by {
                                let dv = unique_domains.deep_view();
                                assert(dv.len() == prior_doms.len() + 1);
                                assert forall|u: int| 0 <= u < dv.len() implies dv[u]
                                    == prior_doms.push(rec@.domain)[u] by {
                                    assert(dv[u] == unique_domains@[u]@);
                                    if u < prior_vec.len() {
                                        assert(unique_domains@[u] == prior_vec[u]);
                                        assert(prior_doms[u] == prior_vec[u]@);
                                    }
                                }
                                assert(dv =~= prior_doms.push(rec@.domain));
                            }
                        }
                    }
                    if start_timestamp.is_none() {
                        start_timestamp = Some(rec.timestamp.clone());
                    }
                    stop_timestamp = Some(rec.timestamp);
                } else {
                    proof {
                        assert(!record_passes_ld(rec@, d, l));
                    }
                }
            },
        }
        i += 1;
    }
    proof {
        assert(lv.take(lines@.len() as int) =~~= lv);
    }
    let summary = LogSummary { total_lines, levels, unique_domains, start_timestamp, stop_timestamp };
    proof {
        assert(summary@ =~~= summarize(split_lines(log_text@), d, l));
    }
    summary
}

/// The lines that classify and pass the level/domain allow-lists, in input
/// order.
pub open spec fn passing_lines(
    lines: Seq<Seq<char>>,
    domains: Option<Seq<Seq<char>>>,
    levels: Option<Seq<Seq<char>>>,
) -> Seq<Seq<char>>
    decreases lines.len(),
{
    if lines.len() == 0 {
        Seq::empty()
    } else {
        let prefix = passing_lines(lines.drop_last(), domains, levels);
        if line_passes_ld(lines.last(), domains, levels) {
            prefix.push(lines.last())
        } else {
            prefix
        }
    }
}

/// A request to filter a full log text by levels and domains.
pub struct FilterRequest {
    pub log_text: String,
    pub domains: Option<Vec<String>>,
    pub levels: Option<Vec<String>>,
}

/// The lines that pass the filter, together with their summary.
pub struct FilteredLogResponse {
    pub filtered_lines: Vec<String>,
    pub summary: LogSummary,
}

/// What an upload reports back: the fresh session handle and the summary of
/// the whole uploaded text.
pub struct UploadResponse {
    pub session_id: String,
    pub summary: LogSummary,
}

/// Filters a log text: returns the lines that classify and pass the
/// level/domain allow-lists, and the summary over exactly those lines.
pub fn filter_logs(req: &FilterRequest) -> (resp: FilteredLogResponse)
    ensures
        resp.summary@ == summarize(
            split_lines(req.log_text@),
            req.domains.deep_view(),
            req.levels.deep_view(),
        ),
        resp.filtered_lines.deep_view() == passing_lines(
            split_lines(req.log_text@),
            req.domains.deep_view(),
            req.levels.deep_view(),
        ),
{
    let ghost d = req.domains.deep_view();
    let ghost l = req.levels.deep_view();
    let domains_ref = req.domains.as_ref();
    let levels_ref = req.levels.as_ref();
    proof {
        assert(domains_ref.deep_view() == d);
        assert(levels_ref.deep_view() == l);
    }
    let summary = parse_log(req.log_text.as_str(), domains_ref, levels_ref);
    let lines = split_text_lines(req.log_text.as_str());
    let ghost lv = lines.deep_view();
    let mut filtered_lines: Vec<String> = Vec::new();
    let mut i: usize = 0;
    proof {
        assert(lv.take(0) =~~= Seq::<Seq<char>>::empty());
        assert(filtered_lines.deep_view() =~~= Seq::<Seq<char>>::empty());
    }
    while i < lines.len()
        invariant
            0 <= i <= lines@.len(),
            lv == lines.deep_view(),
            lv.len() == lines@.len(),
            d == req.domains.deep_view(),
            l == req.levels.deep_view(),
            filtered_lines.deep_view() == passing_lines(lv.take(i as int), d, l),
        decreases lines@.len() - i,
    {
        proof {
            assert(lv.take(i + 1).drop_last() =~~= lv.take(i as int));
            assert(lv.take(i + 1).last() == lv[i as int]);
            assert(lines@[i as int]@ == lv[i as int]);
        }
        let keep = match classify_line(lines[i].as_str()) {
            None => false,
            Some(rec) => {
                let lvl_ok = match &req.levels {
                    None => true,
                    Some(items) => list_contains(items, rec.level.as_str()),
                };
                let dom_ok = match &req.domains {
                    None => true,
                    Some(items) => list_contains(items, rec.domain.as_str()),
                };
                lvl_ok && dom_ok
            },
        };
        proof {
            assert(keep == line_passes_ld(lv[i as int], d, l));
        }
        if keep {
            let ghost prior_dv = filtered_lines.deep_view();
            let ghost prior_vec = filtered_lines@;
            filtered_lines.push(lines[i].clone());
            proof {
                assert(filtered_lines.deep_view() =~~= prior_dv.push(lv[i as int])) by {
                    let dv = filtered_lines.deep_view();
                    assert(dv.len() == prior_dv.len() + 1);
                    assert forall|u: int| 0 <= u < dv.len() implies dv[u] == prior_dv.push(
                        lv[i as int],
                    )[u] by {
                        assert(dv[u] == filtered_lines@[u]@);
                        if u < prior_vec.len() {
                            assert(filtered_lines@[u] == prior_vec[u]);
                            assert(prior_dv[u] == prior_vec[u]@);
                        }
                    }
                    assert(dv =~= prior_dv.push(lv[i as int]));
                }
            }
        }
        i += 1;
    }
    proof {
        assert(lv.take(lines@.len() as int) =~~= lv);
    }
    FilteredLogResponse { filtered_lines, summary }
}

} // verus!
