//! The context window engine: a stateful transducer that expands isolated
//! filter matches into matches plus surrounding context.
//!
//! Fed the lines of a file in order, each classified and tested against the
//! filter, it emits every matching line (tagged as a match) and every line
//! within `context` positions before or after some matching line (tagged as
//! context), in exactly the input order and each at most once — even when the
//! windows of two nearby matches overlap. Lines held back waiting for a later
//! match are dropped at end of input: with no match to justify them they are
//! never emitted.

use crate::filter::line_matches;
use crate::filter::line_matches_spec;
use crate::filter::FilterView;
use crate::filter::LogFilter;
use crate::text::split_lines;
use crate::text::split_text_lines;
use vstd::prelude::*;

verus! {

/// One emission of the engine: a raw line and whether it is merely context
/// (`true`) or a filter match itself (`false`).
pub struct StreamEvent {
    pub line: String,
    pub is_context: bool,
}

impl View for StreamEvent {
    type V = (Seq<char>, bool);

    open spec fn view(&self) -> (Seq<char>, bool) {
        (self.line@, self.is_context)
    }
}

impl DeepView for StreamEvent {
    type V = (Seq<char>, bool);

    open spec fn deep_view(&self) -> (Seq<char>, bool) {
        self@
    }
}

/// The lowercase hexadecimal digit for a value below sixteen.
pub open spec fn hex_digit(v: int) -> char {
    if v == 0 {
        '0'
    } else if v == 1 {
        '1'
    } else if v == 2 {
        '2'
    } else if v == 3 {
        '3'
    } else if v == 4 {
        '4'
    } else if v == 5 {
        '5'
    } else if v == 6 {
        '6'
    } else if v == 7 {
        '7'
    } else if v == 8 {
        '8'
    } else if v == 9 {
        '9'
    } else if v == 10 {
        'a'
    } else if v == 11 {
        'b'
    } else if v == 12 {
        'c'
    } else if v == 13 {
        'd'
    } else if v == 14 {
        'e'
    } else {
        'f'
    }
}

/// The JSON escape of one character: quote, backslash and the named control
/// characters by two-character escapes, the remaining control characters as
/// `\u00XX`, everything else as itself.
pub open spec fn json_escape_char(c: char) -> Seq<char> {
    if c == '"' {
        seq!['\\', '"']
    } else if c == '\\' {
        seq!['\\', '\\']
    } else if c == '\u{8}' {
        seq!['\\', 'b']
    } else if c == '\u{c}' {
        seq!['\\', 'f']
    } else if c == '\n' {
        seq!['\\', 'n']
    } else if c == '\r' {
        seq!['\\', 'r']
    } else if c == '\t' {
        seq!['\\', 't']
    } else if (c as u32) < 0x20 {
        seq!['\\', 'u', '0', '0', hex_digit(((c as u32) / 16) as int), hex_digit(
            ((c as u32) % 16) as int,
        )]
    } else {
        seq![c]
    }
}

/// The JSON escape of a whole string.
pub open spec fn json_escape(s: Seq<char>) -> Seq<char>
    decreases s.len(),
{
    if s.len() == 0 {
        Seq::empty()
    } else {
        json_escape(s.drop_last()) + json_escape_char(s.last())
    }
}

/// The wire form of one data event: a JSON object carrying the raw line and
/// the context flag.
pub open spec fn event_json(line: Seq<char>, is_context: bool) -> Seq<char> {
    "{\"line\":\""@ + json_escape(line) + "\",\"context\":"@ + (if is_context {
        "true"@
    } else {
        "false"@
    }) + "}"@
}

/// The engine's input history: each line fed so far, paired with whether it
/// matched the filter.
pub type History = Seq<(Seq<char>, bool)>;

/// Line `k` lies within `c` positions of some matched line of the history.
pub open spec fn in_window(hist: History, c: int, k: int) -> bool {
    exists|j: int| 0 <= j < hist.len() && (#[trigger] hist[j]).1 && k - c <= j <= k + c
}

/// The engine's output over the first `i` lines of the history: every line
/// within the window of a match, in input order, tagged as context exactly
/// when it is not itself a match.
pub open spec fn window_emissions_upto(hist: History, c: int, i: int) -> Seq<(Seq<char>, bool)>
    decreases i,
{
    if i <= 0 {
        Seq::empty()
    } else {
        let prefix = window_emissions_upto(hist, c, i - 1);
        if 0 <= i - 1 < hist.len() && in_window(hist, c, i - 1) {
            prefix.push((hist[i - 1].0, !hist[i - 1].1))
        } else {
            prefix
        }
    }
}

/// The engine's output over a whole history.
pub open spec fn window_emissions(hist: History, c: int) -> Seq<(Seq<char>, bool)> {
    window_emissions_upto(hist, c, hist.len() as int)
}

/// A matched line at distance at most `c` puts `k` inside a window.
proof fn lemma_in_window_witness(hist: History, c: int, k: int, j: int)
    requires
        0 <= j < hist.len(),
        hist[j].1,
        k - c <= j <= k + c,
    ensures
        in_window(hist, c, k),
{
}

/// The output over a stretch of lines outside every window does not grow.
proof fn lemma_upto_constant(hist: History, c: int, a: int, b: int)
    requires
        0 <= a <= b <= hist.len(),
        forall|k: int| a <= k < b ==> !in_window(hist, c, k),
    ensures
        window_emissions_upto(hist, c, b) == window_emissions_upto(hist, c, a),
    decreases b - a,
{
    if a < b {
        lemma_upto_constant(hist, c, a, b - 1);
    }
}

/// Extending the history by an unmatched line leaves every line's window
/// status, and the output over any prefix of the old lines, unchanged.
proof fn lemma_extend_nonmatch(hist: History, l: Seq<char>, c: int, i: int)
    requires
        0 <= i <= hist.len(),
    ensures
        forall|k: int| in_window(hist.push((l, false)), c, k) == in_window(hist, c, k),
        window_emissions_upto(hist.push((l, false)), c, i) == window_emissions_upto(hist, c, i),
    decreases i,
{
    let hist2 = hist.push((l, false));
    assert forall|k: int| in_window(hist2, c, k) == in_window(hist, c, k) by {
        if in_window(hist2, c, k) {
            let j = choose|j: int|
                0 <= j < hist2.len() && (#[trigger] hist2[j]).1 && k - c <= j <= k + c;
            assert(j < hist.len());
            assert((hist[j]).1);
            lemma_in_window_witness(hist, c, k, j);
        }
        if in_window(hist, c, k) {
            let j = choose|j: int|
                0 <= j < hist.len() && (#[trigger] hist[j]).1 && k - c <= j <= k + c;
            assert((hist2[j]).1);
            lemma_in_window_witness(hist2, c, k, j);
        }
    }
    if i > 0 {
        lemma_extend_nonmatch(hist, l, c, i - 1);
        assert(hist2[i - 1] == hist[i - 1]);
    }
}

/// Below the backward buffer, everything a match arriving now could newly
/// cover is covered already, so the output over such a prefix is unchanged.
proof fn lemma_extend_match_low(hist: History, l: Seq<char>, c: int, m: int, i: int)
    requires
        0 <= c,
        0 <= m <= hist.len(),
        m <= c,
        0 <= i <= hist.len() - m,
        forall|k: int| 0 <= k && hist.len() - c <= k < hist.len() - m ==> in_window(hist, c, k),
    ensures
        forall|k: int|
            0 <= k < hist.len() - m ==> in_window(hist.push((l, true)), c, k) == in_window(
                hist,
                c,
                k,
            ),
        window_emissions_upto(hist.push((l, true)), c, i) == window_emissions_upto(hist, c, i),
    decreases i,
{
    let n = hist.len() as int;
    let hist2 = hist.push((l, true));
    assert forall|k: int| 0 <= k < n - m implies in_window(hist2, c, k) == in_window(
        hist,
        c,
        k,
    ) by {
        if in_window(hist2, c, k) {
            let j = choose|j: int|
                0 <= j < hist2.len() && (#[trigger] hist2[j]).1 && k - c <= j <= k + c;
            if j < n {
                assert((hist[j]).1);
                lemma_in_window_witness(hist, c, k, j);
            } else {
                // The new match at `n` reaches `k` only if `k >= n - c`, and
                // such lines below the buffer are covered already.
                assert(k >= n - c);
            }
        }
        if in_window(hist, c, k) {
            let j = choose|j: int|
                0 <= j < hist.len() && (#[trigger] hist[j]).1 && k - c <= j <= k + c;
            assert((hist2[j]).1);
            lemma_in_window_witness(hist2, c, k, j);
        }
    }
    if i > 0 {
        lemma_extend_match_low(hist, l, c, m, i - 1);
        assert(hist2[i - 1] == hist[i - 1]);
    }
}

/// A match arriving now newly covers exactly the buffered lines, which
/// append to the output in their input order.
proof fn lemma_extend_match_high(hist: History, l: Seq<char>, c: int, m: int, i: int)
    requires
        0 <= c,
        0 <= m <= hist.len(),
        m <= c,
        hist.len() - m <= i <= hist.len(),
        forall|k: int| hist.len() - m <= k < hist.len() ==> !(#[trigger] hist[k]).1,
        forall|k: int| hist.len() - m <= k < hist.len() ==> !in_window(hist, c, k),
        forall|k: int| 0 <= k && hist.len() - c <= k < hist.len() - m ==> in_window(hist, c, k),
    ensures
        window_emissions_upto(hist.push((l, true)), c, i) == window_emissions_upto(
            hist,
            c,
            hist.len() - m,
        ) + Seq::new((i - (hist.len() - m)) as nat, |t: int| (hist[hist.len() - m + t].0, true)),
    decreases i,
{
    let n = hist.len() as int;
    let hist2 = hist.push((l, true));
    let f = |t: int| (hist[n - m + t].0, true);
    if i == n - m {
        lemma_extend_match_low(hist, l, c, m, i);
        assert(window_emissions_upto(hist2, c, i) =~~= window_emissions_upto(hist, c, n - m)
            + Seq::new(0, f));
    } else {
        lemma_extend_match_high(hist, l, c, m, i - 1);
        assert(hist2[n].1);
        lemma_in_window_witness(hist2, c, i - 1, n);
        assert(hist2[i - 1] == hist[i - 1]);
        assert(!hist[i - 1].1);
        assert(window_emissions_upto(hist2, c, i) == window_emissions_upto(hist2, c, i - 1).push(
            (hist[i - 1].0, true),
        ));
        assert(Seq::new((i - (n - m)) as nat, f) =~~= Seq::new(((i - 1) - (n - m)) as nat, f).push(
            (hist[i - 1].0, true),
        ));
        assert(window_emissions_upto(hist, c, n - m) + Seq::new((i - (n - m)) as nat, f)
            =~~= (window_emissions_upto(hist, c, n - m) + Seq::new(
            ((i - 1) - (n - m)) as nat,
            f,
        )).push((hist[i - 1].0, true)));
    }
}

/// Plain filtering: the matching lines alone, in input order, none of them
/// tagged as context.
pub open spec fn plain_filter_output(hist: History) -> Seq<(Seq<char>, bool)>
    decreases hist.len(),
{
    if hist.len() == 0 {
        Seq::empty()
    } else {
        let prefix = plain_filter_output(hist.drop_last());
        if hist.last().1 {
            prefix.push((hist.last().0, false))
        } else {
            prefix
        }
    }
}

/// With a zero context the engine is plain filtering: the output holds
/// exactly the matching lines, in their input order, all tagged as matches.
pub proof fn lemma_zero_context_is_plain_filter(hist: History)
    ensures
        window_emissions(hist, 0) == plain_filter_output(hist),
    decreases hist.len(),
{
    if hist.len() > 0 {
        let n = (hist.len() - 1) as int;
        let prefix = hist.drop_last();
        let last = hist.last();
        lemma_zero_context_is_plain_filter(prefix);
        assert(hist =~~= prefix.push(last));
        if last.1 {
            assert(last == (last.0, true));
            lemma_extend_match_low(prefix, last.0, 0, 0, n);
            lemma_in_window_witness(hist, 0, n, n);
            assert(window_emissions(hist, 0) == window_emissions_upto(hist, 0, n).push(
                (last.0, false),
            ));
        } else {
            assert(last == (last.0, false));
            lemma_extend_nonmatch(prefix, last.0, 0, n);
            assert(!in_window(hist, 0, n)) by {
                if in_window(hist, 0, n) {
                    let j = choose|j: int|
                        0 <= j < hist.len() && (#[trigger] hist[j]).1 && n - 0 <= j <= n + 0;
                    assert(j == n);
                }
            }
            assert(window_emissions(hist, 0) == window_emissions_upto(hist, 0, n));
        }
    }
}

/// The source positions of the output over the first `i` lines.
pub open spec fn emission_indices(hist: History, c: int, i: int) -> Seq<int>
    decreases i,
{
    if i <= 0 {
        Seq::empty()
    } else {
        let prefix = emission_indices(hist, c, i - 1);
        if 0 <= i - 1 < hist.len() && in_window(hist, c, i - 1) {
            prefix.push(i - 1)
        } else {
            prefix
        }
    }
}

/// The inductive form of `lemma_emissions_unique_in_order`.
proof fn lemma_emission_indices_upto(hist: History, c: int, i: int)
    requires
        0 <= i <= hist.len(),
    ensures
        window_emissions_upto(hist, c, i).len() == emission_indices(hist, c, i).len(),
        forall|t: int|
            0 <= t < emission_indices(hist, c, i).len() ==> 0 <= #[trigger] emission_indices(
                hist,
                c,
                i,
            )[t] < i,
        forall|t: int|
            0 <= t < emission_indices(hist, c, i).len() ==> in_window(
                hist,
                c,
                #[trigger] emission_indices(hist, c, i)[t],
            ),
        forall|t: int|
            0 <= t < emission_indices(hist, c, i).len() ==> window_emissions_upto(hist, c, i)[t]
                == (hist[#[trigger] emission_indices(hist, c, i)[t]].0, !hist[emission_indices(
                hist,
                c,
                i,
            )[t]].1),
        forall|t1: int, t2: int|
            0 <= t1 < t2 < emission_indices(hist, c, i).len() ==> #[trigger] emission_indices(
                hist,
                c,
                i,
            )[t1] < #[trigger] emission_indices(hist, c, i)[t2],
    decreases i,
{
    if i > 0 {
        lemma_emission_indices_upto(hist, c, i - 1);
    }
}

/// Every qualifying line is emitted exactly once and in input order: the
/// output pairs one-to-one with a strictly increasing sequence of source
/// positions, each inside some match's window. In particular, when the
/// windows of two matches overlap, a shared context line appears once, at
/// its first qualifying occurrence.
pub proof fn lemma_emissions_unique_in_order(hist: History, c: int)
    ensures
        window_emissions(hist, c).len() == emission_indices(hist, c, hist.len() as int).len(),
        forall|t: int|
            0 <= t < emission_indices(hist, c, hist.len() as int).len() ==> 0
                <= #[trigger] emission_indices(hist, c, hist.len() as int)[t] < hist.len(),
        forall|t: int|
            0 <= t < emission_indices(hist, c, hist.len() as int).len() ==> in_window(
                hist,
                c,
                #[trigger] emission_indices(hist, c, hist.len() as int)[t],
            ),
        forall|t: int|
            0 <= t < emission_indices(hist, c, hist.len() as int).len() ==> window_emissions(
                hist,
                c,
            )[t] == (hist[#[trigger] emission_indices(hist, c, hist.len() as int)[t]].0, !hist[
                emission_indices(hist, c, hist.len() as int)[t]].1),
        forall|t1: int, t2: int|
            0 <= t1 < t2 < emission_indices(hist, c, hist.len() as int).len()
                ==> #[trigger] emission_indices(hist, c, hist.len() as int)[t1]
                < #[trigger] emission_indices(hist, c, hist.len() as int)[t2],
{
    lemma_emission_indices_upto(hist, c, hist.len() as int);
}

/// The per-connection state of the engine: the context size, a bounded FIFO
/// of recent lines that may yet become backward context, and a countdown of
/// lines still owed as forward context. The ghost history and emission log
/// tie the state to the windowed output of everything fed so far.
pub struct ContextWindowState {
    pub context: usize,
    pub backward: Vec<String>,
    pub forward_remaining: usize,
    pub hist: Ghost<History>,
    pub emitted: Ghost<Seq<(Seq<char>, bool)>>,
}

impl ContextWindowState {
    /// The invariants the engine maintains between lines. The backward buffer
    /// holds exactly the most recent unmatched lines outside every window so
    /// far (at most `context` of them, and everything between them and the
    /// window reach is covered); the forward counter names the last match it
    /// descends from; and the emission log is exactly the windowed output of
    /// the history.
    pub open spec fn wf(&self) -> bool {
        let n = self.hist@.len() as int;
        let m = self.backward@.len() as int;
        let c = self.context as int;
        let fr = self.forward_remaining as int;
        &&& m <= c
        &&& m <= n
        &&& fr <= c
        &&& (forall|t: int|
            0 <= t < m ==> (#[trigger] self.backward@[t])@ == self.hist@[n - m + t].0)
        &&& (forall|k: int| n - m <= k < n ==> !(#[trigger] self.hist@[k]).1)
        &&& (forall|k: int| n - m <= k < n ==> !in_window(self.hist@, c, k))
        &&& (forall|k: int| 0 <= k && n - c <= k < n - m ==> in_window(self.hist@, c, k))
        &&& (fr > 0 ==> m == 0)
        &&& (fr > 0 ==> 0 <= n - 1 - (c - fr) && (self.hist@[n - 1 - (c - fr)]).1 && (forall|
            j: int,
        |
            n - (c - fr) <= j < n ==> !(#[trigger] self.hist@[j]).1))
        &&& (fr == 0 ==> (forall|j: int|
            0 <= j && n - c <= j < n ==> !(#[trigger] self.hist@[j]).1))
        &&& self.emitted@ == window_emissions(self.hist@, c)
    }

    /// A fresh engine for one stream, before any line has been fed.
    pub fn new(context: usize) -> (s: ContextWindowState)
        ensures
            s.wf(),
            s.context == context,
            s.hist@ == Seq::<(Seq<char>, bool)>::empty(),
            s.emitted@ == Seq::<(Seq<char>, bool)>::empty(),
    {
        let s = ContextWindowState {
            context,
            backward: Vec::new(),
            forward_remaining: 0,
            hist: Ghost(Seq::empty()),
            emitted: Ghost(Seq::empty()),
        };
        s
    }

    /// Feeds one line into the engine, with the filter's verdict on it, and
    /// returns what the engine emits for it: on a match, the buffered
    /// backward context oldest first and then the line itself; on a
    /// non-match, the line as forward context while the last match still owes
    /// some, and otherwise nothing yet. The emission log stays exactly the
    /// windowed output of the whole history.
    pub fn step(&mut self, line: String, matched: bool) -> (evs: Vec<StreamEvent>)
        requires
            old(self).wf(),
        ensures
            final(self).wf(),
            final(self).context == old(self).context,
            final(self).hist@ == old(self).hist@.push((line@, matched)),
            final(self).emitted@ == old(self).emitted@ + evs.deep_view(),
    {
        let ghost lv = line@;
        let ghost prior = self.hist@;
        let ghost n = prior.len() as int;
        let ghost c = self.context as int;
        let ghost m = self.backward@.len() as int;
        let ghost hist2 = prior.push((lv, matched));
        let mut evs: Vec<StreamEvent> = Vec::new();
        if matched {
            // Flush the backward buffer oldest-to-newest as context.
            let ghost bw = self.backward@;
            let mut t: usize = 0;
            while t < self.backward.len()
                invariant
                    *self == *old(self),
                    self.backward@ == bw,
                    0 <= t <= bw.len(),
                    evs.deep_view() =~~= Seq::new(t as nat, |u: int| (bw[u]@, true)),
                decreases self.backward.len() - t,
            {
                let ghost prior_dv = evs.deep_view();
                let ghost prior_evs = evs@;
                proof {
                    assert(prior_dv.len() == t as int);
                    assert(prior_evs.len() == t as int);
                }
                evs.push(StreamEvent { line: self.backward[t].clone(), is_context: true });
                proof {
                    let dv = evs.deep_view();
                    let tgt = Seq::new((t + 1) as nat, |u: int| (bw[u]@, true));
                    assert(dv.len() == tgt.len());
                    assert(evs@[t as int].deep_view() == (bw[t as int]@, true));
                    assert forall|u: int| 0 <= u < dv.len() implies dv[u] == tgt[u] by {
                        assert(tgt[u] == (bw[u]@, true));
                        assert(dv[u] == evs@[u].deep_view());
                        if u < t {
                            assert(evs@[u] == prior_evs[u]);
                            assert(prior_dv[u] == prior_evs[u].deep_view());
                            assert(prior_dv[u] == (bw[u]@, true));
                        }
                    }
                    assert(dv =~= tgt);
                }
                t += 1;
            }
            // Then the matching line itself, and reset the forward window.
            let ghost flush_dv = evs.deep_view();
            let ghost flush_evs = evs@;
            proof {
                assert(flush_dv.len() == m);
                assert(flush_evs.len() == m);
            }
            evs.push(StreamEvent { line, is_context: false });
            self.backward = Vec::new();
            self.forward_remaining = self.context;
            proof {
                self.hist@ = hist2;
                self.emitted@ = self.emitted@ + evs.deep_view();
                let f = |t: int| (prior[n - m + t].0, true);
                assert(evs.deep_view() =~~= Seq::new(m as nat, f).push((lv, false))) by {
                    let dv = evs.deep_view();
                    let tgt = Seq::new(m as nat, f).push((lv, false));
                    assert(dv.len() == tgt.len());
                    assert(evs@[m].deep_view() == (lv, false));
                    assert forall|u: int| 0 <= u < dv.len() implies dv[u] == tgt[u] by {
                        assert(dv[u] == evs@[u].deep_view());
                        if u < m {
                            assert(evs@[u] == flush_evs[u]);
                            assert(flush_dv[u] == flush_evs[u].deep_view());
                            assert(flush_dv[u] == (bw[u]@, true));
                            assert(bw[u]@ == prior[n - m + u].0);
                            assert(tgt[u] == (prior[n - m + u].0, true));
                        } else {
                            assert(tgt[u] == (lv, false));
                        }
                    }
                    assert(dv =~= tgt);
                }
                lemma_extend_match_high(prior, lv, c, m, n);
                lemma_upto_constant(prior, c, n - m, n);
                assert(hist2[n].1);
                lemma_in_window_witness(hist2, c, n, n);
                assert(window_emissions(hist2, c) == window_emissions_upto(hist2, c, n).push(
                    (lv, false),
                ));
                assert(self.emitted@ =~~= window_emissions_upto(prior, c, n - m) + Seq::new(
                    m as nat,
                    f,
                ).push((lv, false)));
                assert(window_emissions_upto(hist2, c, n).push((lv, false))
                    =~~= window_emissions_upto(prior, c, n - m) + Seq::new(m as nat, f).push(
                    (lv, false),
                ));
                // Re-establish the invariants: the buffer is empty, the new
                // match covers the whole reach behind it, and it is the last
                // match the forward counter descends from.
                assert forall|k: int| 0 <= k && n + 1 - c <= k < n + 1 implies in_window(
                    hist2,
                    c,
                    k,
                ) by {
                    lemma_in_window_witness(hist2, c, k, n);
                }
            }
            evs
        } else if self.forward_remaining > 0 {
            // Forward context owed by the last match.
            evs.push(StreamEvent { line, is_context: true });
            let ghost fr = self.forward_remaining as int;
            self.forward_remaining = self.forward_remaining - 1;
            proof {
                self.hist@ = hist2;
                self.emitted@ = self.emitted@ + evs.deep_view();
                lemma_extend_nonmatch(prior, lv, c, n);
                let jstar = n - 1 - (c - fr);
                assert(hist2[jstar].1);
                lemma_in_window_witness(hist2, c, n, jstar);
                assert(window_emissions(hist2, c) == window_emissions_upto(hist2, c, n).push(
                    (lv, true),
                ));
                assert(evs.deep_view() =~~= seq![(lv, true)]);
                assert(self.emitted@ =~~= window_emissions_upto(prior, c, n).push((lv, true)));
                // The same last match keeps covering the window reach.
                assert forall|k: int| 0 <= k && n + 1 - c <= k < n + 1 implies in_window(
                    hist2,
                    c,
                    k,
                ) by {
                    if k < n {
                        assert(in_window(prior, c, k));
                    }
                }
            }
            evs
        } else {
            // Outside any window so far: hold the line as possible backward
            // context, keeping only the most recent `context` lines.
            self.backward.push(line);
            if self.backward.len() > self.context {
                self.backward.remove(0);
            }
            proof {
                self.hist@ = hist2;
                self.emitted@ = self.emitted@ + evs.deep_view();
                lemma_extend_nonmatch(prior, lv, c, n);
                // The new line lies in no window: the last match, if any, is
                // too far back, and the line itself did not match.
                assert(!in_window(hist2, c, n)) by {
                    if in_window(hist2, c, n) {
                        let j = choose|j: int|
                            0 <= j < hist2.len() && (#[trigger] hist2[j]).1 && n - c <= j <= n + c;
                        assert(j < n);
                        assert(!(prior[j]).1);
                    }
                }
                assert(window_emissions(hist2, c) == window_emissions_upto(hist2, c, n));
                assert(evs.deep_view() =~~= Seq::<(Seq<char>, bool)>::empty());
                assert(self.emitted@ =~~= window_emissions_upto(prior, c, n));
                // The buffer still holds exactly the most recent unmatched,
                // uncovered lines.
                let m2 = self.backward@.len() as int;
                assert forall|t: int| 0 <= t < m2 implies (#[trigger] self.backward@[t])@
                    == hist2[n + 1 - m2 + t].0 by {
                    if m + 1 > c {
                        assert(self.backward@[t] == old(self).backward@.push(line)[t + 1]);
                    } else {
                        assert(self.backward@[t] == old(self).backward@.push(line)[t]);
                    }
                }
                assert forall|k: int| n + 1 - m2 <= k < n + 1 implies !in_window(hist2, c, k) by {
                    assert(in_window(hist2, c, k) == in_window(prior, c, k));
                    if k < n {
                        assert(!in_window(prior, c, k));
                    }
                }
                assert forall|k: int| 0 <= k && n + 1 - c <= k < n + 1 - m2 implies in_window(
                    hist2,
                    c,
                    k,
                ) by {
                    assert(in_window(prior, c, k));
                }
            }
            evs
        }
    }

    /// Ends the input. Lines still in the backward buffer were never followed
    /// by a match, so no window justifies them: the engine discards them and
    /// emits nothing further. The emission log is already the complete
    /// windowed output of the whole input.
    pub fn finish(self) -> (evs: Vec<StreamEvent>)
        requires
            self.wf(),
        ensures
            evs.deep_view() == Seq::<(Seq<char>, bool)>::empty(),
            self.emitted@ == window_emissions(self.hist@, self.context as int),
    {
        let evs: Vec<StreamEvent> = Vec::new();
        proof {
            assert(evs.deep_view() =~~= Seq::<(Seq<char>, bool)>::empty());
        }
        evs
    }
}

/// The lowercase hexadecimal digit of a value below sixteen, as a string.
fn hex_digit_str(v: u32) -> (s: &'static str)
    requires
        v < 16,
    ensures
        s@ == seq![hex_digit(v as int)],
{
    proof {
        reveal_strlit("0");
        reveal_strlit("1");
        reveal_strlit("2");
        reveal_strlit("3");
        reveal_strlit("4");
        reveal_strlit("5");
        reveal_strlit("6");
        reveal_strlit("7");
        reveal_strlit("8");
        reveal_strlit("9");
        reveal_strlit("a");
        reveal_strlit("b");
        reveal_strlit("c");
        reveal_strlit("d");
        reveal_strlit("e");
        reveal_strlit("f");
    }
    let s: &'static str = if v == 0 {
        "0"
    } else if v == 1 {
        "1"
    } else if v == 2 {
        "2"
    } else if v == 3 {
        "3"
    } else if v == 4 {
        "4"
    } else if v == 5 {
        "5"
    } else if v == 6 {
        "6"
    } else if v == 7 {
        "7"
    } else if v == 8 {
        "8"
    } else if v == 9 {
        "9"
    } else if v == 10 {
        "a"
    } else if v == 11 {
        "b"
    } else if v == 12 {
        "c"
    } else if v == 13 {
        "d"
    } else if v == 14 {
        "e"
    } else {
        "f"
    };
    proof {
        assert(s@ =~= seq![hex_digit(v as int)]);
    }
    s
}

impl StreamEvent {
    /// The wire encoding of this data event, as a stream consumer parses it:
    /// a single JSON object with the raw line under `line` and the context
    /// flag under `context`.
    pub fn encode(&self) -> (s: String)
        ensures
            s@ == event_json(self.line@, self.is_context),
    {
        let mut out = String::new();
        proof {
            reveal_strlit("{\"line\":\"");
        }
        out.append("{\"line\":\"");
        let text = self.line.as_str();
        let n = text.unicode_len();
        let mut i: usize = 0;
        proof {
            assert(text@.take(0) =~= Seq::<char>::empty());
            assert(out@ =~= "{\"line\":\""@ + json_escape(text@.take(0)));
        }
        while i < n
            invariant
                n == text@.len(),
                text@ == self.line@,
                0 <= i <= n,
                out@ == "{\"line\":\""@ + json_escape(text@.take(i as int)),
            decreases n - i,
        {
            let ghost held = out@;
            let c = text.get_char(i);
            proof {
                assert(text@.take(i + 1).drop_last() =~= text@.take(i as int));
                assert(text@.take(i + 1).last() == text@[i as int]);
                assert(json_escape(text@.take(i + 1)) == json_escape(text@.take(i as int))
                    + json_escape_char(text@[i as int]));
            }
            if c == '"' {
                proof {
                    reveal_strlit("\\\"");
                }
                out.append("\\\"");
                proof {
                    assert("\\\""@ =~= json_escape_char(c));
                }
            } else if c == '\\' {
                proof {
                    reveal_strlit("\\\\");
                }
                out.append("\\\\");
                proof {
                    assert("\\\\"@ =~= json_escape_char(c));
                }
            } else if c == '\u{8}' {
                proof {
                    reveal_strlit("\\b");
                }
                out.append("\\b");
                proof {
                    assert("\\b"@ =~= json_escape_char(c));
                }
            } else if c == '\u{c}' {
                proof {
                    reveal_strlit("\\f");
                }
                out.append("\\f");
                proof {
                    assert("\\f"@ =~= json_escape_char(c));
                }
            } else if c == '\n' {
                proof {
                    reveal_strlit("\\n");
                }
                out.append("\\n");
                proof {
                    assert("\\n"@ =~= json_escape_char(c));
                }
            } else if c == '\r' {
                proof {
                    reveal_strlit("\\r");
                }
                out.append("\\r");
                proof {
                    assert("\\r"@ =~= json_escape_char(c));
                }
            } else if c == '\t' {
                proof {
                    reveal_strlit("\\t");
                }
                out.append("\\t");
                proof {
                    assert("\\t"@ =~= json_escape_char(c));
                }
            } else if (c as u32) < 0x20 {
                proof {
                    reveal_strlit("\\u00");
                }
                out.append("\\u00");
                out.append(hex_digit_str((c as u32) / 16));
                out.append(hex_digit_str((c as u32) % 16));
                proof {
                    assert(out@ =~= held + json_escape_char(c));
                }
            } else {
                out.append(text.substring_char(i, i + 1));
                proof {
                    assert(text@.subrange(i as int, i + 1) =~= json_escape_char(c));
                }
            }
            proof {
                assert(out@ =~= "{\"line\":\""@ + json_escape(text@.take(i + 1)));
            }
            i += 1;
        }
        proof {
            assert(text@.take(n as int) =~= text@);
            reveal_strlit("\",\"context\":");
            reveal_strlit("true");
            reveal_strlit("false");
            reveal_strlit("}");
        }
        out.append("\",\"context\":");
        if self.is_context {
            out.append("true");
        } else {
            out.append("false");
        }
        out.append("}");
        proof {
            assert(out@ =~= event_json(self.line@, self.is_context));
        }
        out
    }
}

/// The history the engine sees for given lines under a filter: each line
/// paired with the filter's verdict on it.
pub open spec fn matched_history(lines: Seq<Seq<char>>, f: FilterView) -> History {
    Seq::new(lines.len(), |i: int| (lines[i], line_matches_spec(lines[i], f)))
}

/// The stream output for a complete text under a filter: split into lines,
/// classify and filter each, and expand context windows.
pub open spec fn stream_output(text: Seq<char>, f: FilterView) -> Seq<(Seq<char>, bool)> {
    window_emissions(matched_history(split_lines(text), f), f.context)
}

/// Runs the whole pipeline over a complete text: every line of it fed
/// through the classifier, the filter and the context window engine, with
/// the end-of-input decision applied.
pub fn filtered_events(log_text: &str, filter: &LogFilter) -> (evs: Vec<StreamEvent>)
    ensures
        evs.deep_view() == stream_output(log_text@, filter@),
{
    let lines = split_text_lines(log_text);
    let ghost lv = lines.deep_view();
    let mut state = ContextWindowState::new(filter.context);
    let mut evs: Vec<StreamEvent> = Vec::new();
    let mut i: usize = 0;
    proof {
        assert(state.hist@ =~~= matched_history(lv.take(0), filter@));
        assert(evs.deep_view() =~~= state.emitted@);
    }
    while i < lines.len()
        invariant
            state.wf(),
            state.context == filter.context,
            lv == lines.deep_view(),
            0 <= i <= lines@.len(),
            lv.len() == lines@.len(),
            state.hist@ == matched_history(lv.take(i as int), filter@),
            evs.deep_view() == state.emitted@,
        decreases lines@.len() - i,
    {
        let matched = line_matches(lines[i].as_str(), filter);
        let mut step_evs = state.step(lines[i].clone(), matched);
        let ghost sdv = step_evs.deep_view();
        let ghost sevs = step_evs@;
        let ghost prior_dv = evs.deep_view();
        let ghost prior_evs = evs@;
        evs.append(&mut step_evs);
        proof {
            assert(evs.deep_view() =~~= prior_dv + sdv) by {
                let dv = evs.deep_view();
                assert(dv.len() == prior_dv.len() + sdv.len());
                assert forall|u: int| 0 <= u < dv.len() implies dv[u] == (prior_dv + sdv)[u] by {
                    assert(dv[u] == evs@[u].deep_view());
                    if u < prior_evs.len() {
                        assert(evs@[u] == prior_evs[u]);
                        assert(prior_dv[u] == prior_evs[u].deep_view());
                    } else {
                        assert(evs@[u] == sevs[u - prior_evs.len()]);
                        assert(sdv[u - prior_evs.len()] == sevs[u - prior_evs.len()].deep_view());
                    }
                }
                assert(dv =~= prior_dv + sdv);
            }
            assert(state.hist@ =~~= matched_history(lv.take(i + 1), filter@)) by {
                let prev = matched_history(lv.take(i as int), filter@);
                let next = matched_history(lv.take(i + 1), filter@);
                assert(lines@[i as int]@ == lv[i as int]);
                assert(state.hist@ == prev.push((lv[i as int], line_matches_spec(
                    lv[i as int],
                    filter@,
                ))));
                assert(next.len() == prev.len() + 1);
                assert forall|u: int| 0 <= u < next.len() implies next[u] == state.hist@[u] by {
                    assert(lv.take(i + 1)[u] == lv[u]);
                    if u < i {
                        assert(lv.take(i as int)[u] == lv[u]);
                        assert(prev[u] == (lv[u], line_matches_spec(lv[u], filter@)));
                    }
                }
                assert(next =~= state.hist@);
            }
        }
        i += 1;
    }
    proof {
        assert(lv.take(lines@.len() as int) =~~= lv);
        assert(lv == split_lines(log_text@));
    }
    let mut tail = state.finish();
    let ghost prior_dv = evs.deep_view();
    evs.append(&mut tail);
    proof {
        assert(evs.deep_view() =~~= prior_dv) by {
            let dv = evs.deep_view();
            assert(dv.len() == prior_dv.len());
            assert forall|u: int| 0 <= u < dv.len() implies dv[u] == prior_dv[u] by {
                assert(dv[u] == evs@[u].deep_view());
            }
            assert(dv =~= prior_dv);
        }
    }
    evs
}

} // verus!

