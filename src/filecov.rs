//! One row of a coverage report: its model, the parser that reads it and the
//! `lcov` block it is written as.
use std::ops::RangeInclusive;
use vstd::prelude::*;
use crate::text::{
    is_prefix, is_ws, lemma_prefix_trans, lemma_split_first_prefix, lemma_token_start_bound,
    lemma_trim_end_prefix, lemma_trim_start_suffix, bounded_numeral, chars_of, find_token_start, parse_numeral, skip_ws_backward,
    skip_ws_forward, split, split_windows, token_start, trim, trim_end, trim_start,
};

verus! {

/// Relies on `RangeInclusive::start`: it returns the range's lower bound.
pub assume_specification<Idx>[ RangeInclusive::<Idx>::start ](r: &RangeInclusive<Idx>) -> (ret:
    &Idx)
    ensures
        *ret == r@.start,
;

/// Relies on `String::push`: it appends one character.
pub assume_specification[ String::push ](s: &mut String, ch: char)
    ensures
        final(s)@ == old(s)@.push(ch),
;

/// The coverage of one source file as a report row gives it.
///
/// The row `"src/lib/config.rs          45     11    76%   37-45, 60, 73"`
/// is the file `src/lib/config.rs` with 45 statements, 11 of them missed,
/// 76 percent covered, and the missed lines 37 to 45, 60 and 73.
#[derive(Debug, PartialEq, Eq)]
pub struct FileCov {
    /// name of the tested source file as in the coverage report
    pub file: String,
    /// number of statements in the file
    pub stmt_count: usize,
    /// number of statements missed in testing
    pub miss_count: usize,
    /// percentage of statements covered by tests
    pub covered_percent: u8,
    /// the sections of lines missed, each an inclusive range of line numbers,
    /// in the order the row lists them
    pub missed_sections: Vec<RangeInclusive<usize>>,
}

/// What a `FileCov` says, with each missed section as its first and last line.
pub struct CoverageLine {
    pub file: Seq<char>,
    pub stmt_count: nat,
    pub miss_count: nat,
    pub covered_percent: nat,
    pub missed_sections: Seq<(int, int)>,
}

/// The first and last line number that a range holds. A range that has been
/// iterated to its end holds its `end` no longer.
pub open spec fn section_bounds(r: RangeInclusive<usize>) -> (int, int) {
    (r@.start as int, if r@.exhausted { r@.end - 1 } else { r@.end as int })
}

impl View for FileCov {
    type V = CoverageLine;

    open spec fn view(&self) -> CoverageLine {
        CoverageLine {
            file: self.file@,
            stmt_count: self.stmt_count as nat,
            miss_count: self.miss_count as nat,
            covered_percent: self.covered_percent as nat,
            missed_sections: self.missed_sections@.map_values(
                |r: RangeInclusive<usize>| section_bounds(r),
            ),
        }
    }
}

// ---------------------------------------------------------------- the row format

/// The last run of non-whitespace characters of `t`, and what stands before it.
pub open spec fn last_token(t: Seq<char>) -> (Seq<char>, Seq<char>) {
    let k = token_start(t) as int;
    (t.subrange(0, k), t.subrange(k, t.len() as int))
}

/// The part of a row before its `%`: a file name, then three whitespace-separated
/// numerals (statements, missed statements, percent covered), with whitespace
/// allowed around them. The name is whatever stands before the last three
/// numerals, trimmed, and must not be empty. Counts must fit a `usize` and the
/// percentage a `u8`.
pub open spec fn parse_summary(p: Seq<char>) -> Option<(Seq<char>, nat, nat, nat)> {
    let (h3, n3) = last_token(trim_end(p));
    let (h2, n2) = last_token(trim_end(h3));
    let (h1, n1) = last_token(trim_end(h2));
    let file = trim(h1);
    match (
        bounded_numeral(n1, usize::MAX as nat),
        bounded_numeral(n2, usize::MAX as nat),
        bounded_numeral(n3, u8::MAX as nat),
    ) {
        (Some(a), Some(b), Some(c)) => if file.len() > 0 {
            Some((file, a, b, c))
        } else {
            None
        },
        _ => None,
    }
}

/// A line number: a numeral that fits a `usize`, with whitespace around it.
pub open spec fn line_number(s: Seq<char>) -> Option<nat> {
    bounded_numeral(trim(s), usize::MAX as nat)
}

/// One missed section: a line number, or two joined by `-`.
pub open spec fn parse_section(piece: Seq<char>) -> Option<(int, int)> {
    let parts = split(piece, '-');
    if parts.len() == 1 {
        match line_number(parts[0]) {
            Some(a) => Some((a as int, a as int)),
            None => None,
        }
    } else if parts.len() == 2 {
        match (line_number(parts[0]), line_number(parts[1])) {
            (Some(a), Some(b)) => Some((a as int, b as int)),
            _ => None,
        }
    } else {
        None
    }
}

/// The part of a row after its `%`: blank, for no missed sections, or a
/// comma-separated list of sections, every one of which must be well formed.
pub open spec fn parse_sections(r: Seq<char>) -> Option<Seq<(int, int)>> {
    if trim(r).len() == 0 {
        Some(Seq::empty())
    } else {
        let ps = split(r, ',');
        if forall|j: int| 0 <= j < ps.len() ==> (#[trigger] parse_section(ps[j])) is Some {
            Some(Seq::new(ps.len(), |j: int| parse_section(ps[j])->0))
        } else {
            None
        }
    }
}

/// The record a report row stands for, or `None` where the row is no coverage
/// row (a header, a separator, a blank line, a malformed section list).
pub open spec fn parse_line(s: Seq<char>) -> Option<CoverageLine> {
    let ps = split(s, '%');
    if ps.len() < 2 {
        None
    } else {
        match (parse_summary(ps[0]), parse_sections(s.subrange(ps[0].len() as int + 1, s.len() as int))) {
            (Some((file, a, b, c)), Some(secs)) => Some(
                CoverageLine {
                    file,
                    stmt_count: a,
                    miss_count: b,
                    covered_percent: c,
                    missed_sections: secs,
                },
            ),
            _ => None,
        }
    }
}

// ---------------------------------------------------------------- the lcov block

pub open spec fn digit_char(d: nat) -> char {
    seq!['0', '1', '2', '3', '4', '5', '6', '7', '8', '9'][d as int]
}

/// The decimal digits of `n`, without leading zeros.
pub open spec fn decimal(n: nat) -> Seq<char>
    decreases n,
{
    if n < 10 {
        seq![digit_char(n)]
    } else {
        decimal(n / 10).push(digit_char(n % 10))
    }
}

/// `DA:<n>,0` and a line break: line `n` ran zero times.
pub open spec fn da_line(n: int) -> Seq<char> {
    seq!['D', 'A', ':'] + decimal(n as nat) + seq![',', '0', '\n']
}

/// The line numbers from `a` to `b`, both included; none where `b < a`.
pub open spec fn range_lines(a: int, b: int) -> Seq<int>
    decreases b - a + 1,
{
    if b < a {
        Seq::empty()
    } else {
        range_lines(a, b - 1).push(b)
    }
}

/// Every line of every section, section by section.
pub open spec fn missed_lines(secs: Seq<(int, int)>) -> Seq<int>
    decreases secs.len(),
{
    if secs.len() == 0 {
        Seq::empty()
    } else {
        missed_lines(secs.drop_last()) + range_lines(secs.last().0, secs.last().1)
    }
}

/// One `DA` line for each of `lines`, in order.
pub open spec fn da_text(lines: Seq<int>) -> Seq<char>
    decreases lines.len(),
{
    if lines.len() == 0 {
        Seq::empty()
    } else {
        da_text(lines.drop_last()) + da_line(lines.last())
    }
}

pub open spec fn end_marker() -> Seq<char> {
    seq!['e', 'n', 'd', '_', 'o', 'f', '_', 'r', 'e', 'c', 'o', 'r', 'd']
}

/// The `lcov` block of a record: `SF:<file>`, a `DA` line for each missed
/// line, and `end_of_record` with no line break after it.
pub open spec fn lcov_block(c: CoverageLine) -> Seq<char> {
    seq!['S', 'F', ':'] + c.file + seq!['\n'] + da_text(missed_lines(c.missed_sections))
        + end_marker()
}

pub proof fn lemma_da_text_append(a: Seq<int>, b: Seq<int>)
    ensures
        da_text(a + b) == da_text(a) + da_text(b),
    decreases b.len(),
{
    if b.len() == 0 {
        assert(a + b =~= a);
        assert(da_text(b) =~= Seq::<char>::empty());
        assert(da_text(a) + da_text(b) =~= da_text(a));
    } else {
        lemma_da_text_append(a, b.drop_last());
        assert((a + b).drop_last() =~= a + b.drop_last());
        assert((a + b).last() == b.last());
        assert(da_text(a) + da_text(b) =~= da_text(a) + da_text(b.drop_last()) + da_line(
            b.last(),
        ));
    }
}

// ---------------------------------------------------------------- parsing

/// The characters of the window `[lo, hi)` as a `String`.
fn string_of(v: &Vec<char>, lo: usize, hi: usize) -> (s: String)
    requires
        lo <= hi <= v@.len(),
    ensures
        s@ == v@.subrange(lo as int, hi as int),
{
    let mut s = String::new();
    let mut i = lo;
    while i < hi
        invariant
            lo <= i <= hi,
            hi <= v@.len(),
            s@ == v@.subrange(lo as int, i as int),
        decreases hi - i,
    {
        s.push(v[i]);
        assert(v@.subrange(lo as int, i + 1) =~= v@.subrange(lo as int, i as int).push(v@[i as int]));
        i = i + 1;
    }
    s
}

/// Splits the last token off the window `[lo, hi)` after trimming its end:
/// returns where the token starts and ends.
fn split_last_token(v: &Vec<char>, lo: usize, hi: usize) -> (r: (usize, usize))
    requires
        lo <= hi <= v@.len(),
    ensures
        lo <= r.0 <= r.1 <= hi,
        last_token(trim_end(v@.subrange(lo as int, hi as int))) == (
            v@.subrange(lo as int, r.0 as int),
            v@.subrange(r.0 as int, r.1 as int),
        ),
{
    let h = skip_ws_backward(v, lo, hi);
    let k = find_token_start(v, lo, h);
    let ghost t = v@.subrange(lo as int, h as int);
    assert(t.subrange(0, k - lo) =~= v@.subrange(lo as int, k as int));
    assert(t.subrange(k - lo, t.len() as int) =~= v@.subrange(k as int, h as int));
    (k, h)
}

/// Reads the part of a row before its `%`, the window `[lo, hi)`: the window
/// of the file name and the three numbers.
fn parse_summary_window(v: &Vec<char>, lo: usize, hi: usize) -> (r: Option<
    (usize, usize, usize, usize, u8),
>)
    requires
        lo <= hi <= v@.len(),
    ensures
        match parse_summary(v@.subrange(lo as int, hi as int)) {
            Some((file, a, b, c)) => r is Some && {
                let (fl, fh, x, y, z) = r->0;
                &&& lo <= fl <= fh <= hi
                &&& v@.subrange(fl as int, fh as int) == file
                &&& x == a && y == b && z == c
            },
            None => r is None,
        },
{
    let (k3, e3) = split_last_token(v, lo, hi);
    let (k2, e2) = split_last_token(v, lo, k3);
    let (k1, e1) = split_last_token(v, lo, k2);
    let fl = skip_ws_forward(v, lo, k1);
    let fh = skip_ws_backward(v, fl, k1);
    let n1 = parse_numeral(v, k1, e1, usize::MAX);
    let n2 = parse_numeral(v, k2, e2, usize::MAX);
    let n3 = parse_numeral(v, k3, e3, 255);
    match (n1, n2, n3) {
        (Some(a), Some(b), Some(c)) => {
            if fl < fh {
                Some((fl, fh, a, b, c as u8))
            } else {
                None
            }
        },
        _ => None,
    }
}

/// Reads a line number, with whitespace around it, from the window `[lo, hi)`.
fn parse_line_number(v: &Vec<char>, lo: usize, hi: usize) -> (r: Option<usize>)
    requires
        lo <= hi <= v@.len(),
    ensures
        match line_number(v@.subrange(lo as int, hi as int)) {
            Some(n) => r == Some(n as usize),
            None => r is None,
        },
{
    let l = skip_ws_forward(v, lo, hi);
    let h = skip_ws_backward(v, l, hi);
    parse_numeral(v, l, h, usize::MAX)
}

/// Reads one missed section from the window `[lo, hi)`.
fn parse_section_window(v: &Vec<char>, lo: usize, hi: usize) -> (r: Option<(usize, usize)>)
    requires
        lo <= hi <= v@.len(),
    ensures
        match parse_section(v@.subrange(lo as int, hi as int)) {
            Some((a, b)) => r == Some((a as usize, b as usize)) && 0 <= a <= usize::MAX && 0
                <= b <= usize::MAX,
            None => r is None,
        },
{
    let parts = split_windows(v, lo, hi, '-');
    if parts.len() == 1 {
        let (a0, a1) = parts[0];
        match parse_line_number(v, a0, a1) {
            Some(a) => Some((a, a)),
            None => None,
        }
    } else if parts.len() == 2 {
        let (a0, a1) = parts[0];
        let (b0, b1) = parts[1];
        match (parse_line_number(v, a0, a1), parse_line_number(v, b0, b1)) {
            (Some(a), Some(b)) => Some((a, b)),
            _ => None,
        }
    } else {
        None
    }
}

/// Reads the part of a row after its `%`, the window `[lo, hi)`.
fn parse_sections_window(v: &Vec<char>, lo: usize, hi: usize) -> (r: Option<
    Vec<RangeInclusive<usize>>,
>)
    requires
        lo <= hi <= v@.len(),
    ensures
        match parse_sections(v@.subrange(lo as int, hi as int)) {
            Some(secs) => r is Some && r->0@.map_values(
                |q: RangeInclusive<usize>| section_bounds(q),
            ) == secs,
            None => r is None,
        },
{
    let ghost s = v@.subrange(lo as int, hi as int);
    let l = skip_ws_forward(v, lo, hi);
    let h = skip_ws_backward(v, l, hi);
    let mut out: Vec<RangeInclusive<usize>> = Vec::new();
    if l == h {
        assert(out@.map_values(|q: RangeInclusive<usize>| section_bounds(q)) =~= Seq::<
            (int, int),
        >::empty());
        return Some(out);
    }
    assert(trim(s).len() > 0);
    let pieces = split_windows(v, lo, hi, ',');
    let ghost ps = split(s, ',');
    let mut j: usize = 0;
    while j < pieces.len()
        invariant
            j <= pieces@.len(),
            pieces@.len() == ps.len(),
            ps == split(s, ','),
            s == v@.subrange(lo as int, hi as int),
            trim(s).len() > 0,
            forall|i: int|
                0 <= i < pieces@.len() ==> lo <= (#[trigger] pieces@[i]).0 <= pieces@[i].1 <= hi
                    && v@.subrange(pieces@[i].0 as int, pieces@[i].1 as int) == ps[i],
            hi <= v@.len(),
            out@.len() == j,
            forall|i: int| 0 <= i < j ==> (#[trigger] parse_section(ps[i])) is Some,
            forall|i: int|
                0 <= i < j ==> section_bounds(#[trigger] out@[i]) == parse_section(ps[i])->0,
        decreases pieces@.len() - j,
    {
        let (p0, p1) = pieces[j];
        match parse_section_window(v, p0, p1) {
            None => {
                assert(parse_section(ps[j as int]) is None);
                assert(!(forall|i: int| 0 <= i < ps.len() ==> (#[trigger] parse_section(ps[i])) is Some));
                assert(parse_sections(s) is None);
                return None;
            },
            Some((a, b)) => {
                out.push(RangeInclusive::new(a, b));
            },
        }
        j = j + 1;
    }
    assert(out@.map_values(|q: RangeInclusive<usize>| section_bounds(q)) =~= Seq::new(
        ps.len(),
        |i: int| parse_section(ps[i])->0,
    ));
    Some(out)
}

impl FileCov {
    /// Reads one row of a coverage report. Returns `None` where the row is no
    /// coverage row: it has no `%`, the part before the `%` is not a file name
    /// followed by three numbers, or the part after it is neither blank nor a
    /// list of well-formed sections.
    pub fn parse(line: &str) -> (r: Option<FileCov>)
        ensures
            match parse_line(line@) {
                Some(c) => r is Some && r->0@ == c,
                None => r is None,
            },
    {
        let v = chars_of(line);
        let n = v.len();
        assert(v@.subrange(0, n as int) =~= line@);
        let parts = split_windows(&v, 0, n, '%');
        if parts.len() < 2 {
            return None;
        }
        let (_, k) = parts[0];
        let ghost ps = split(line@, '%');
        assert(ps[0] == v@.subrange(0, k as int));
        assert(line@.subrange(ps[0].len() as int + 1, line@.len() as int) == v@.subrange(k + 1, n as int));
        match (parse_summary_window(&v, 0, k), parse_sections_window(&v, k + 1, n)) {
            (Some((fl, fh, a, b, c)), Some(secs)) => {
                let file = string_of(&v, fl, fh);
                Some(
                    FileCov {
                        file,
                        stmt_count: a,
                        miss_count: b,
                        covered_percent: c,
                        missed_sections: secs,
                    },
                )
            },
            _ => None,
        }
    }
}

// ---------------------------------------------------------------- writing

fn push_str_chars(out: &mut String, s: &str)
    ensures
        final(out)@ == old(out)@ + s@,
{
    let v = chars_of(s);
    let mut i: usize = 0;
    while i < v.len()
        invariant
            i <= v@.len(),
            v@ == s@,
            out@ == old(out)@ + v@.subrange(0, i as int),
        decreases v@.len() - i,
    {
        out.push(v[i]);
        assert(v@.subrange(0, i + 1) =~= v@.subrange(0, i as int).push(v@[i as int]));
        assert(old(out)@ + v@.subrange(0, i + 1) =~= (old(out)@ + v@.subrange(0, i as int)).push(v@[i as int]));
        i = i + 1;
    }
    assert(v@.subrange(0, i as int) =~= v@);
}

/// Appends the decimal digits of `n`.
fn push_decimal(out: &mut String, n: usize)
    ensures
        final(out)@ == old(out)@ + decimal(n as nat),
    decreases n,
{
    let digits: [char; 10] = ['0', '1', '2', '3', '4', '5', '6', '7', '8', '9'];
    assert(digits@ =~= seq!['0', '1', '2', '3', '4', '5', '6', '7', '8', '9']);
    if n >= 10 {
        push_decimal(out, n / 10);
    }
    out.push(digits[n % 10]);
    if n >= 10 {
        assert(old(out)@ + decimal(n as nat) =~= old(out)@ + decimal((n / 10) as nat) + seq![digit_char((n % 10) as nat)]);
    } else {
        assert(old(out)@ + decimal(n as nat) =~= old(out)@.push(digit_char(n as nat)));
    }
}

/// Appends the `DA` line of line `n`.
fn push_da_line(out: &mut String, n: usize)
    ensures
        final(out)@ == old(out)@ + da_line(n as int),
{
    proof {
        reveal_strlit("DA:");
        reveal_strlit(",0\n");
    }
    push_str_chars(out, "DA:");
    push_decimal(out, n);
    push_str_chars(out, ",0\n");
    assert(final(out)@ =~= old(out)@ + da_line(n as int));
}

/// Appends a `DA` line for each line that the range holds.
fn push_section(out: &mut String, r: &RangeInclusive<usize>)
    ensures
        final(out)@ == old(out)@ + da_text(
            range_lines(section_bounds(*r).0, section_bounds(*r).1),
        ),
{
    let ghost a = section_bounds(*r).0;
    let ghost last = section_bounds(*r).1;
    let ghost base = out@;
    let mut i: usize = *r.start();
    let mut more = r.contains(&i);
    let ghost mut done_to: int = a - 1;
    assert(range_lines(a, a - 1) =~= Seq::<int>::empty());
    assert(base + da_text(Seq::<int>::empty()) =~= base);
    while more
        invariant
            a == r@.start,
            a == section_bounds(*r).0,
            last == section_bounds(*r).1,
            last <= usize::MAX,
            a <= i,
            out@ == base + da_text(range_lines(a, done_to)),
            more ==> done_to == i - 1 && i <= last,
            !more ==> range_lines(a, done_to) == range_lines(a, last),
        decreases (usize::MAX - i) + (if more { 1int } else { 0int }),
    {
        push_da_line(out, i);
        proof {
            assert(range_lines(a, i as int) == range_lines(a, i - 1).push(i as int));
            assert(range_lines(a, i as int).drop_last() =~= range_lines(a, i - 1));
            done_to = i as int;
        }
        if i == usize::MAX {
            more = false;
        } else {
            i = i + 1;
            more = r.contains(&i);
            if !more {
                assert(done_to == last);
            }
        }
    }
    proof {
        if a > last {
            assert(range_lines(a, last) =~= Seq::<int>::empty());
        }
    }
}

impl FileCov {
    /// The record as an `lcov` block: `SF:<file>`, a `DA:<line>,0` line for
    /// every line of every missed section in order, then `end_of_record` with
    /// no line break after it.
    pub fn to_string(&self) -> (s: String)
        ensures
            s@ == lcov_block(self@),
    {
        proof {
            reveal_strlit("SF:");
            reveal_strlit("\n");
            reveal_strlit("end_of_record");
        }
        let ghost secs = self@.missed_sections;
        let mut out = String::new();
        push_str_chars(&mut out, "SF:");
        push_str_chars(&mut out, self.file.as_str());
        push_str_chars(&mut out, "\n");
        let ghost head = out@;
        assert(secs.subrange(0, 0) =~= Seq::<(int, int)>::empty());
        assert(head + da_text(missed_lines(secs.subrange(0, 0))) =~= head);
        let mut j: usize = 0;
        while j < self.missed_sections.len()
            invariant
                j <= self.missed_sections@.len(),
                secs == self@.missed_sections,
                out@ == head + da_text(missed_lines(secs.subrange(0, j as int))),
            decreases self.missed_sections@.len() - j,
        {
            let ghost before = missed_lines(secs.subrange(0, j as int));
            push_section(&mut out, &self.missed_sections[j]);
            proof {
                let sec = secs[j as int];
                assert(secs.subrange(0, j + 1).drop_last() =~= secs.subrange(0, j as int));
                lemma_da_text_append(before, range_lines(sec.0, sec.1));
            }
            j = j + 1;
        }
        assert(secs.subrange(0, j as int) =~= secs);
        push_str_chars(&mut out, "end_of_record");
        assert(out@ =~= lcov_block(self@));
        out
    }
}

impl<'a> TryFrom<&'a str> for FileCov {
    type Error = String;

    /// Reads one row of a coverage report; an error where `FileCov::parse`
    /// finds no record.
    fn try_from(line: &'a str) -> (r: Result<FileCov, String>)
        ensures
            match parse_line(line@) {
                Some(c) => r is Ok && r->Ok_0@ == c,
                None => r is Err,
            },
    {
        match FileCov::parse(line) {
            Some(fc) => Ok(fc),
            None => Err("not a coverage row".to_owned()),
        }
    }
}

impl<'a> vstd::std_specs::convert::TryFromSpecImpl<&'a str> for FileCov {
    /// The contract of `try_from` below says what it returns.
    open spec fn obeys_try_from_spec() -> bool {
        false
    }

    open spec fn try_from_spec(line: &'a str) -> Result<FileCov, String> {
        arbitrary()
    }
}

// ---------------------------------------------------------------- laws

/// The number of lines that sections with these first and last lines hold,
/// counted as `last - first + 1` each.
pub open spec fn span_sum(secs: Seq<(int, int)>) -> int
    decreases secs.len(),
{
    if secs.len() == 0 {
        0
    } else {
        span_sum(secs.drop_last()) + (secs.last().1 - secs.last().0 + 1)
    }
}

proof fn lemma_range_lines_len(a: int, b: int)
    requires
        a <= b + 1,
    ensures
        range_lines(a, b).len() == b - a + 1,
    decreases b - a + 1,
{
    if b >= a {
        lemma_range_lines_len(a, b - 1);
    }
}

proof fn lemma_missed_lines_len(secs: Seq<(int, int)>)
    requires
        forall|j: int| 0 <= j < secs.len() ==> (#[trigger] secs[j]).0 <= secs[j].1 + 1,
    ensures
        missed_lines(secs).len() == span_sum(secs),
    decreases secs.len(),
{
    if secs.len() > 0 {
        let init = secs.drop_last();
        assert forall|j: int| 0 <= j < init.len() implies (#[trigger] init[j]).0 <= init[j].1
            + 1 by {
            assert(init[j] == secs[j]);
        }
        lemma_missed_lines_len(init);
        lemma_range_lines_len(secs.last().0, secs.last().1);
    }
}

/// The block of every record begins with `SF:` and the file name and ends with
/// `end_of_record`; what stands between them is one `DA` line for each line of
/// each section, and where no section ends before it starts, that is as many
/// lines as the sum of `last - first + 1` over the sections.
pub proof fn lemma_block_shape(c: CoverageLine)
    ensures
        lcov_block(c) == seq!['S', 'F', ':'] + c.file + seq!['\n'] + da_text(
            missed_lines(c.missed_sections),
        ) + end_marker(),
        lcov_block(c).subrange(0, c.file.len() as int + 3) == seq!['S', 'F', ':'] + c.file,
        lcov_block(c).subrange(lcov_block(c).len() - 13, lcov_block(c).len() as int)
            == end_marker(),
        (forall|j: int|
            0 <= j < c.missed_sections.len() ==> (#[trigger] c.missed_sections[j]).0
                <= c.missed_sections[j].1 + 1) ==> missed_lines(c.missed_sections).len()
            == span_sum(c.missed_sections),
{
    let b = lcov_block(c);
    let head = seq!['S', 'F', ':'] + c.file;
    let rest = seq!['\n'] + da_text(missed_lines(c.missed_sections));
    assert(b =~= head + rest + end_marker());
    assert(b.subrange(0, c.file.len() as int + 3) =~= head);
    assert(b.subrange(b.len() - 13, b.len() as int) =~= end_marker());
    if forall|j: int|
        0 <= j < c.missed_sections.len() ==> (#[trigger] c.missed_sections[j]).0
            <= c.missed_sections[j].1 + 1 {
        lemma_missed_lines_len(c.missed_sections);
    }
}

proof fn lemma_last_token_prefix(t: Seq<char>)
    ensures
        is_prefix(last_token(t).0, t),
{
    lemma_token_start_bound(t);
    assert(last_token(t).0 =~= t.subrange(0, last_token(t).0.len() as int));
}

/// The file name of every record read from a row is not empty, has no
/// whitespace at either end, and stands in the row character for character.
pub proof fn lemma_file_verbatim(s: Seq<char>)
    requires
        parse_line(s) is Some,
    ensures
        ({
            let f = parse_line(s)->0.file;
            &&& f.len() > 0
            &&& !is_ws(f[0])
            &&& !is_ws(f.last())
            &&& exists|i: int|
                0 <= i && i + f.len() <= s.len() && #[trigger] s.subrange(i, i + f.len()) == f
        }),
{
    let p = split(s, '%')[0];
    lemma_split_first_prefix(s, '%');
    let t0 = trim_end(p);
    lemma_trim_end_prefix(p);
    lemma_prefix_trans(t0, p, s);
    let h3 = last_token(t0).0;
    lemma_last_token_prefix(t0);
    lemma_prefix_trans(h3, t0, s);
    let t1 = trim_end(h3);
    lemma_trim_end_prefix(h3);
    lemma_prefix_trans(t1, h3, s);
    let h2 = last_token(t1).0;
    lemma_last_token_prefix(t1);
    lemma_prefix_trans(h2, t1, s);
    let t2 = trim_end(h2);
    lemma_trim_end_prefix(h2);
    lemma_prefix_trans(t2, h2, s);
    let h1 = last_token(t2).0;
    lemma_last_token_prefix(t2);
    lemma_prefix_trans(h1, t2, s);
    let u = trim_start(h1);
    lemma_trim_start_suffix(h1);
    let f = trim_end(u);
    lemma_trim_end_prefix(u);
    assert(f == parse_line(s)->0.file);
    let i = h1.len() - u.len();
    assert(f[0] == u[0]);
    assert(s.subrange(i, i + f.len()) =~= f);
}

} // verus!
