//! The line classifier: one raw text line either matches the fixed
//! four-field grammar — a bracketed timestamp, a bracketed level and a
//! bracketed domain separated by single spaces, then an optional free-form
//! message — or it is unmatched and excluded from all further processing.
//!
//! Bracketed fields hold one or more characters other than `']'`. Any run of
//! spaces after the domain's closing bracket is consumed before the message,
//! which may be empty. Matching is purely syntactic: timestamps, levels and
//! domains are opaque, case-sensitive strings.

use crate::text::find_from;
use crate::text::lemma_find_from_first;
use crate::text::lemma_find_from_none;
use vstd::prelude::*;
use vstd::string::StrSliceExecFns;
use vstd::string::StringExecFns;

verus! {

/// The mathematical view of a classified log line.
#[verifier::ext_equal]
pub ghost struct RecordView {
    pub timestamp: Seq<char>,
    pub level: Seq<char>,
    pub domain: Seq<char>,
    pub message: Seq<char>,
}

/// A structured log record: the four fields of one matching line.
pub struct LogRecord {
    pub timestamp: String,
    pub level: String,
    pub domain: String,
    pub message: String,
}

impl View for LogRecord {
    type V = RecordView;

    open spec fn view(&self) -> RecordView {
        RecordView {
            timestamp: self.timestamp@,
            level: self.level@,
            domain: self.domain@,
            message: self.message@,
        }
    }
}

/// A bracketed field starting at `start`: `'['`, one or more characters other
/// than `']'`, then `']'`. Yields the content and the index just after the
/// closing bracket.
pub open spec fn parse_bracketed(line: Seq<char>, start: int) -> Option<(Seq<char>, int)> {
    if 0 <= start < line.len() && line[start] == '[' {
        let j = find_from(line, ']', start + 1);
        if start + 1 < j < line.len() {
            Some((line.subrange(start + 1, j), j + 1))
        } else {
            None
        }
    } else {
        None
    }
}

/// Index of the first character at or after `from` that is not a space
/// (`line.len()` when all are).
pub open spec fn skip_spaces(line: Seq<char>, from: int) -> int
    decreases line.len() - from,
{
    if from < 0 || from >= line.len() {
        line.len() as int
    } else if line[from] == ' ' {
        skip_spaces(line, from + 1)
    } else {
        from
    }
}

/// Classification of one line against the four-field grammar: `Some` record
/// on a match, `None` for an unmatched line.
pub open spec fn classify(line: Seq<char>) -> Option<RecordView> {
    match parse_bracketed(line, 0) {
        None => None,
        Some((ts, p1)) => {
            if p1 < line.len() && line[p1] == ' ' {
                match parse_bracketed(line, p1 + 1) {
                    None => None,
                    Some((level, p2)) => {
                        if p2 < line.len() && line[p2] == ' ' {
                            match parse_bracketed(line, p2 + 1) {
                                None => None,
                                Some((domain, p3)) => Some(
                                    RecordView {
                                        timestamp: ts,
                                        level: level,
                                        domain: domain,
                                        message: line.subrange(
                                            skip_spaces(line, p3),
                                            line.len() as int,
                                        ),
                                    },
                                ),
                            }
                        } else {
                            None
                        }
                    },
                }
            } else {
                None
            }
        },
    }
}

/// `skip_spaces` lands on the first non-space position.
proof fn lemma_skip_spaces_at(line: Seq<char>, from: int, m: int)
    requires
        0 <= from <= m <= line.len(),
        forall|t: int| from <= t < m ==> line[t] == ' ',
        m == line.len() || line[m] != ' ',
    ensures
        skip_spaces(line, from) == m,
    decreases m - from,
{
    if from < m {
        lemma_skip_spaces_at(line, from + 1, m);
    }
}

/// Reads one bracketed field starting at `start`, as `parse_bracketed`
/// describes it.
fn read_bracketed(line: &str, start: usize) -> (r: Option<(String, usize)>)
    ensures
        match r {
            Some(p) => parse_bracketed(line@, start as int) == Some((p.0@, p.1 as int)) && start
                < p.1 <= line@.len(),
            None => parse_bracketed(line@, start as int) is None,
        },
{
    let len = line.unicode_len();
    if start >= len || line.get_char(start) != '[' {
        return None;
    }
    let mut j: usize = start + 1;
    while j < len && line.get_char(j) != ']'
        invariant
            len == line@.len(),
            start + 1 <= j <= len,
            forall|t: int| start + 1 <= t < j ==> line@[t] != ']',
        decreases len - j,
    {
        j += 1;
    }
    proof {
        if j < len {
            lemma_find_from_first(line@, ']', start + 1, j as int);
        } else {
            lemma_find_from_none(line@, ']', start + 1);
        }
    }
    if j >= len {
        return None;
    }
    if j == start + 1 {
        return None;
    }
    let content = String::from_str(line.substring_char(start + 1, j));
    Some((content, j + 1))
}

/// Classifies one raw line: `Some` structured record exactly when the line
/// matches the grammar.
pub fn classify_line(line: &str) -> (r: Option<LogRecord>)
    ensures
        match r {
            Some(rec) => classify(line@) == Some(rec@),
            None => classify(line@) is None,
        },
{
    let len = line.unicode_len();
    let ts = match read_bracketed(line, 0) {
        Some(x) => x,
        None => {
            return None;
        },
    };
    if ts.1 >= len || line.get_char(ts.1) != ' ' {
        return None;
    }
    let lv = match read_bracketed(line, ts.1 + 1) {
        Some(x) => x,
        None => {
            return None;
        },
    };
    if lv.1 >= len || line.get_char(lv.1) != ' ' {
        return None;
    }
    let dm = match read_bracketed(line, lv.1 + 1) {
        Some(x) => x,
        None => {
            return None;
        },
    };
    let mut m: usize = dm.1;
    while m < len && line.get_char(m) == ' '
        invariant
            len == line@.len(),
            dm.1 <= m <= len,
            forall|t: int| dm.1 <= t < m ==> line@[t] == ' ',
        decreases len - m,
    {
        m += 1;
    }
    proof {
        lemma_skip_spaces_at(line@, dm.1 as int, m as int);
    }
    let message = String::from_str(line.substring_char(m, len));
    Some(
        LogRecord {
            timestamp: ts.0,
            level: lv.0,
            domain: dm.0,
            message,
        },
    )
}

} // verus!
