//! Character-level text helpers: string equality, substring search, line
//! splitting, trimming, and comma-separated lists. Everything is specified
//! over `Seq<char>` views.

use vstd::prelude::*;
use vstd::string::StrSliceExecFns;
use vstd::string::StringExecFns;

verus! {

/// `needle` occurs somewhere in `hay` as a contiguous run of characters.
pub open spec fn is_substring(needle: Seq<char>, hay: Seq<char>) -> bool {
    exists|i: int|
        0 <= i && i + needle.len() <= hay.len() && #[trigger] hay.subrange(i, i + needle.len())
            == needle
}

/// Index of the first occurrence of `c` in `s` at or after `from`, or
/// `s.len()` when there is none (or `from` is out of range).
pub open spec fn find_from(s: Seq<char>, c: char, from: int) -> int
    decreases s.len() - from,
{
    if from < 0 || from >= s.len() {
        s.len() as int
    } else if s[from] == c {
        from
    } else {
        find_from(s, c, from + 1)
    }
}

/// `s` without a single trailing carriage return, if one is present.
pub open spec fn strip_cr(s: Seq<char>) -> Seq<char> {
    if s.len() > 0 && s[s.len() - 1] == '\r' {
        s.drop_last()
    } else {
        s
    }
}

/// The lines of `text`: segments split at `'\n'`, each with one trailing
/// `'\r'` removed, and no empty segment after a final terminator.
pub open spec fn split_lines(text: Seq<char>) -> Seq<Seq<char>>
    decreases text.len(),
{
    if text.len() == 0 {
        Seq::empty()
    } else {
        let j = find_from(text, '\n', 0);
        if !(0 <= j < text.len()) {
            seq![strip_cr(text)]
        } else {
            seq![strip_cr(text.take(j))] + split_lines(text.skip(j + 1))
        }
    }
}

/// Characters removed by trimming: spaces and tabs.
pub open spec fn is_blank(c: char) -> bool {
    c == ' ' || c == '\t'
}

/// Index of the first non-blank character at or after `from` (`s.len()` when
/// all are blank).
pub open spec fn trim_start_idx(s: Seq<char>, from: int) -> int
    decreases s.len() - from,
{
    if from < 0 || from >= s.len() {
        s.len() as int
    } else if is_blank(s[from]) {
        trim_start_idx(s, from + 1)
    } else {
        from
    }
}

/// One past the last non-blank character strictly before `upto` (0 when all
/// are blank).
pub open spec fn trim_end_idx(s: Seq<char>, upto: int) -> int
    decreases upto,
{
    if upto <= 0 || upto > s.len() {
        0
    } else if is_blank(s[upto - 1]) {
        trim_end_idx(s, upto - 1)
    } else {
        upto
    }
}

/// `s` with leading and trailing blanks removed.
pub open spec fn trim_spec(s: Seq<char>) -> Seq<char> {
    let a = trim_start_idx(s, 0);
    if a >= s.len() {
        Seq::empty()
    } else {
        s.subrange(a, trim_end_idx(s, s.len() as int))
    }
}

/// The comma-separated items of `s`, each trimmed. An input without commas is
/// a single item, so the empty string yields one empty item.
pub open spec fn split_commas(s: Seq<char>) -> Seq<Seq<char>>
    decreases s.len(),
{
    let j = find_from(s, ',', 0);
    if !(0 <= j < s.len()) {
        seq![trim_spec(s)]
    } else {
        seq![trim_spec(s.take(j))] + split_commas(s.skip(j + 1))
    }
}

/// `find_from` returns the position of `c` when `c` first occurs at `j`.
pub proof fn lemma_find_from_first(s: Seq<char>, c: char, from: int, j: int)
    requires
        0 <= from <= j < s.len(),
        s[j] == c,
        forall|t: int| from <= t < j ==> s[t] != c,
    ensures
        find_from(s, c, from) == j,
    decreases j - from,
{
    if from < j {
        lemma_find_from_first(s, c, from + 1, j);
    }
}

/// `find_from` returns `s.len()` when `c` does not occur at or after `from`.
pub proof fn lemma_find_from_none(s: Seq<char>, c: char, from: int)
    requires
        0 <= from,
        forall|t: int| from <= t < s.len() ==> s[t] != c,
    ensures
        find_from(s, c, from) == s.len(),
    decreases s.len() - from,
{
    if from < s.len() {
        lemma_find_from_none(s, c, from + 1);
    }
}

/// `trim_start_idx` lands on the first non-blank position.
proof fn lemma_trim_start_at(s: Seq<char>, from: int, a: int)
    requires
        0 <= from <= a <= s.len(),
        forall|t: int| from <= t < a ==> is_blank(s[t]),
        a == s.len() || !is_blank(s[a]),
    ensures
        trim_start_idx(s, from) == a,
    decreases a - from,
{
    if from < a {
        lemma_trim_start_at(s, from + 1, a);
    }
}

/// `trim_end_idx` lands one past the last non-blank position.
proof fn lemma_trim_end_at(s: Seq<char>, b: int, upto: int)
    requires
        0 <= b <= upto <= s.len(),
        forall|t: int| b <= t < upto ==> is_blank(s[t]),
        b == 0 || !is_blank(s[b - 1]),
    ensures
        trim_end_idx(s, upto) == b,
    decreases upto - b,
{
    if b < upto {
        lemma_trim_end_at(s, b, upto - 1);
    }
}

/// True exactly when the two string slices hold the same characters.
pub fn str_equal(a: &str, b: &str) -> (r: bool)
    ensures
        r == (a@ == b@),
{
    let na = a.unicode_len();
    let nb = b.unicode_len();
    if na != nb {
        return false;
    }
    let mut i: usize = 0;
    while i < na
        invariant
            na == a@.len(),
            na == b@.len(),
            0 <= i <= na,
            forall|t: int| 0 <= t < i ==> a@[t] == b@[t],
        decreases na - i,
    {
        if a.get_char(i) != b.get_char(i) {
            return false;
        }
        i += 1;
    }
    proof {
        assert(a@ =~= b@);
    }
    true
}

/// `needle` matches `hay` starting at position `i`.
fn matches_at(hay: &str, needle: &str, i: usize) -> (b: bool)
    requires
        i + needle@.len() <= hay@.len() <= usize::MAX,
    ensures
        b == (hay@.subrange(i as int, i + needle@.len()) == needle@),
{
    let n = needle.unicode_len();
    let mut j: usize = 0;
    while j < n
        invariant
            n == needle@.len(),
            i + n <= hay@.len() <= usize::MAX,
            0 <= j <= n,
            forall|t: int| 0 <= t < j ==> hay@[i + t] == needle@[t],
        decreases n - j,
    {
        if hay.get_char(i + j) != needle.get_char(j) {
            proof {
                let sub = hay@.subrange(i as int, i + needle@.len());
                assert(sub[j as int] == hay@[i + j]);
            }
            return false;
        }
        j += 1;
    }
    proof {
        assert(hay@.subrange(i as int, i + needle@.len()) =~= needle@);
    }
    true
}

/// True exactly when `needle` occurs in `hay` as a contiguous substring.
pub fn str_contains(hay: &str, needle: &str) -> (b: bool)
    ensures
        b == is_substring(needle@, hay@),
{
    let n = needle.unicode_len();
    let h = hay.unicode_len();
    if n > h {
        return false;
    }
    if n == 0 {
        proof {
            let ghost z: int = 0;
            assert(hay@.subrange(z, z + needle@.len()) == needle@) by {
                assert(hay@.subrange(z, z + needle@.len()) =~= needle@);
            }
            assert(is_substring(needle@, hay@));
        }
        return true;
    }
    let mut i: usize = 0;
    while i <= h - n
        invariant
            n == needle@.len(),
            h == hay@.len(),
            0 < n <= h,
            0 <= i <= h - n + 1,
            forall|t: int|
                0 <= t < i ==> #[trigger] hay@.subrange(t, t + needle@.len()) != needle@,
        decreases h - n - i + 1,
    {
        if matches_at(hay, needle, i) {
            proof {
                assert(0 <= i as int && i as int + needle@.len() <= hay@.len() && hay@.subrange(
                    i as int,
                    i + needle@.len(),
                ) == needle@);
            }
            return true;
        }
        i += 1;
    }
    false
}

/// The lines of `text`, split at newlines with one trailing carriage return
/// removed from each.
pub fn split_text_lines(text: &str) -> (lines: Vec<String>)
    ensures
        lines.deep_view() == split_lines(text@),
{
    let len = text.unicode_len();
    let mut lines: Vec<String> = Vec::new();
    let mut start: usize = 0;
    proof {
        assert(text@.skip(0) =~= text@);
        assert(lines.deep_view() =~= Seq::<Seq<char>>::empty());
        assert(lines.deep_view() + split_lines(text@) =~~= split_lines(text@));
    }
    while start < len
        invariant
            len == text@.len(),
            0 <= start <= len,
            split_lines(text@) == lines.deep_view() + split_lines(text@.skip(start as int)),
        decreases len - start,
    {
        // Find the next newline at or after `start`.
        let mut j: usize = start;
        while j < len && text.get_char(j) != '\n'
            invariant
                len == text@.len(),
                start <= j <= len,
                forall|t: int| start <= t < j ==> text@[t] != '\n',
            decreases len - j,
        {
            j += 1;
        }
        // Drop one trailing carriage return from the segment.
        let end: usize = if j > start && text.get_char(j - 1) == '\r' {
            j - 1
        } else {
            j
        };
        let line = String::from_str(text.substring_char(start, end));
        proof {
            let rest = text@.skip(start as int);
            assert(forall|t: int| 0 <= t < rest.len() ==> rest[t] == text@[start + t]);
            if j < len {
                lemma_find_from_first(rest, '\n', 0, j - start);
            } else {
                lemma_find_from_none(rest, '\n', 0);
            }
            let seg = rest.take(j - start);
            assert(seg =~= text@.subrange(start as int, j as int));
            assert(strip_cr(seg) =~= text@.subrange(start as int, end as int));
            if j < len {
                assert(rest.skip(j - start + 1) =~= text@.skip(j + 1));
                assert(split_lines(rest) == seq![strip_cr(seg)] + split_lines(text@.skip(j + 1)));
            } else {
                assert(seg =~= rest);
                assert(split_lines(rest) == seq![strip_cr(seg)]);
            }
            assert(line@ == strip_cr(seg));
        }
        let ghost prior = lines.deep_view();
        lines.push(line);
        proof {
            assert(lines.deep_view() =~= prior.push(line@));
            if j < len {
                assert(lines.deep_view() + split_lines(text@.skip(j + 1)) =~~= prior + (seq![
                    line@,
                ] + split_lines(text@.skip(j + 1))));
            } else {
                assert(text@.skip(len as int) =~= Seq::<char>::empty());
                assert(split_lines(text@.skip(len as int)) == Seq::<Seq<char>>::empty());
                assert(lines.deep_view() + split_lines(text@.skip(len as int)) =~~= prior + seq![
                    line@,
                ]);
            }
        }
        start = if j < len {
            j + 1
        } else {
            len
        };
    }
    proof {
        assert(text@.skip(len as int) =~= Seq::<char>::empty());
        assert(lines.deep_view() + split_lines(text@.skip(start as int)) =~~= lines.deep_view());
    }
    lines
}

/// `s` with leading and trailing spaces and tabs removed.
pub fn trim_str(s: &str) -> (r: String)
    ensures
        r@ == trim_spec(s@),
{
    let len = s.unicode_len();
    let mut a: usize = 0;
    while a < len && is_blank_char(s.get_char(a))
        invariant
            len == s@.len(),
            0 <= a <= len,
            forall|t: int| 0 <= t < a ==> is_blank(s@[t]),
        decreases len - a,
    {
        a += 1;
    }
    proof {
        lemma_trim_start_at(s@, 0, a as int);
    }
    if a == len {
        return String::new();
    }
    let mut b: usize = len;
    while b > 0 && is_blank_char(s.get_char(b - 1))
        invariant
            len == s@.len(),
            0 <= b <= len,
            forall|t: int| b <= t < len ==> is_blank(s@[t]),
        decreases b,
    {
        b -= 1;
    }
    proof {
        lemma_trim_end_at(s@, b as int, len as int);
    }
    // `a` points at a non-blank character, so the scan from the right stops
    // no earlier than one past it.
    assert(b > a) by {
        if b <= a {
            assert(is_blank(s@[a as int]));
        }
    }
    String::from_str(s.substring_char(a, b))
}

/// Executable form of `is_blank`.
pub fn is_blank_char(c: char) -> (r: bool)
    ensures
        r == is_blank(c),
{
    c == ' ' || c == '\t'
}

/// The comma-separated items of `s`, each trimmed of blanks.
pub fn split_comma_list(s: &str) -> (items: Vec<String>)
    ensures
        items.deep_view() == split_commas(s@),
{
    let len = s.unicode_len();
    let mut items: Vec<String> = Vec::new();
    let mut start: usize = 0;
    proof {
        assert(s@.skip(0) =~= s@);
        assert(items.deep_view() =~= Seq::<Seq<char>>::empty());
        assert(items.deep_view() + split_commas(s@) =~~= split_commas(s@));
    }
    loop
        invariant
            len == s@.len(),
            0 <= start <= len,
            split_commas(s@) == items.deep_view() + split_commas(s@.skip(start as int)),
        decreases len - start,
    {
        let mut j: usize = start;
        while j < len && s.get_char(j) != ','
            invariant
                len == s@.len(),
                start <= j <= len,
                forall|t: int| start <= t < j ==> s@[t] != ',',
            decreases len - j,
        {
            j += 1;
        }
        let item = trim_str(s.substring_char(start, j));
        proof {
            let rest = s@.skip(start as int);
            assert(forall|t: int| 0 <= t < rest.len() ==> rest[t] == s@[start + t]);
            if j < len {
                lemma_find_from_first(rest, ',', 0, j - start);
            } else {
                lemma_find_from_none(rest, ',', 0);
            }
            let seg = rest.take(j - start);
            assert(seg =~= s@.subrange(start as int, j as int));
            assert(item@ == trim_spec(seg));
            if j < len {
                assert(rest.skip(j - start + 1) =~= s@.skip(j + 1));
                assert(split_commas(rest) == seq![trim_spec(seg)] + split_commas(s@.skip(j + 1)));
            } else {
                assert(seg =~= rest);
                assert(split_commas(rest) == seq![trim_spec(seg)]);
            }
        }
        let ghost prior = items.deep_view();
        items.push(item);
        proof {
            assert(items.deep_view() =~= prior.push(item@));
            if j < len {
                assert(items.deep_view() + split_commas(s@.skip(j + 1)) =~~= prior + (seq![
                    item@,
                ] + split_commas(s@.skip(j + 1))));
            } else {
                assert(items.deep_view() =~~= prior + seq![item@]);
            }
        }
        if j < len {
            start = j + 1;
        } else {
            return items;
        }
    }
}

} // verus!
