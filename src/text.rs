//! Character classes and scanning primitives over a line held as a `Vec<char>`.
//!
//! Every scanner works on a window `[lo, hi)` of the vector and is specified
//! against a spec function on the sequence `v@.subrange(lo, hi)`.
use vstd::prelude::*;

verus! {

/// Unicode `White_Space`: the characters that `str::trim` removes.
pub open spec fn is_ws(c: char) -> bool {
    let u = c as u32;
    (9 <= u && u <= 13) || u == 32 || u == 0x85 || u == 0xA0 || u == 0x1680 || (0x2000 <= u && u
        <= 0x200A) || u == 0x2028 || u == 0x2029 || u == 0x202F || u == 0x205F || u == 0x3000
}

pub open spec fn is_digit(c: char) -> bool {
    48 <= (c as u32) && (c as u32) <= 57
}

pub open spec fn digit_value(c: char) -> nat {
    ((c as u32) - 48) as nat
}

/// `s` without its leading whitespace.
pub open spec fn trim_start(s: Seq<char>) -> Seq<char>
    decreases s.len(),
{
    if s.len() > 0 && is_ws(s[0]) {
        trim_start(s.drop_first())
    } else {
        s
    }
}

/// `s` without its trailing whitespace.
pub open spec fn trim_end(s: Seq<char>) -> Seq<char>
    decreases s.len(),
{
    if s.len() > 0 && is_ws(s.last()) {
        trim_end(s.drop_last())
    } else {
        s
    }
}

/// `s` without whitespace at either end.
pub open spec fn trim(s: Seq<char>) -> Seq<char> {
    trim_end(trim_start(s))
}

/// The pieces of `s` between occurrences of `sep`, as `str::split` yields them:
/// always at least one piece, empty pieces kept.
pub open spec fn split(s: Seq<char>, sep: char) -> Seq<Seq<char>>
    decreases s.len(),
{
    if s.len() == 0 {
        seq![Seq::empty()]
    } else {
        let head = split(s.drop_last(), sep);
        if s.last() == sep {
            head.push(Seq::empty())
        } else {
            head.update(head.len() - 1, head.last().push(s.last()))
        }
    }
}

/// Where the last maximal run of non-whitespace characters of `s` begins.
pub open spec fn token_start(s: Seq<char>) -> nat
    decreases s.len(),
{
    if s.len() == 0 || is_ws(s.last()) {
        s.len()
    } else {
        token_start(s.drop_last())
    }
}

/// A non-empty run of ASCII decimal digits.
pub open spec fn is_numeral(s: Seq<char>) -> bool {
    s.len() > 0 && forall|i: int| 0 <= i < s.len() ==> is_digit(#[trigger] s[i])
}

/// The value of a run of decimal digits, most significant first.
pub open spec fn numeral_value(s: Seq<char>) -> nat
    decreases s.len(),
{
    if s.len() == 0 {
        0
    } else {
        numeral_value(s.drop_last()) * 10 + digit_value(s.last())
    }
}

/// Whether `s` is a numeral whose value is at most `max`; its value if so.
pub open spec fn bounded_numeral(s: Seq<char>, max: nat) -> Option<nat> {
    if is_numeral(s) && numeral_value(s) <= max {
        Some(numeral_value(s))
    } else {
        None
    }
}

pub proof fn lemma_numeral_prefix(s: Seq<char>, k: int)
    requires
        0 <= k <= s.len(),
    ensures
        numeral_value(s.subrange(0, k)) <= numeral_value(s),
    decreases s.len() - k,
{
    if k < s.len() {
        lemma_numeral_prefix(s.drop_last(), k);
        assert(s.drop_last().subrange(0, k) =~= s.subrange(0, k));
    } else {
        assert(s.subrange(0, k) =~= s);
    }
}

pub open spec fn is_prefix(x: Seq<char>, y: Seq<char>) -> bool {
    x.len() <= y.len() && x == y.subrange(0, x.len() as int)
}

pub proof fn lemma_trim_end_prefix(s: Seq<char>)
    ensures
        is_prefix(trim_end(s), s),
        trim_end(s).len() > 0 ==> !is_ws(trim_end(s).last()),
    decreases s.len(),
{
    if s.len() > 0 && is_ws(s.last()) {
        lemma_trim_end_prefix(s.drop_last());
        assert(s.drop_last().subrange(0, trim_end(s).len() as int) =~= s.subrange(
            0,
            trim_end(s).len() as int,
        ));
    } else {
        assert(s.subrange(0, s.len() as int) =~= s);
    }
}

pub proof fn lemma_trim_start_suffix(s: Seq<char>)
    ensures
        trim_start(s).len() <= s.len(),
        trim_start(s) == s.subrange(s.len() - trim_start(s).len(), s.len() as int),
        trim_start(s).len() > 0 ==> !is_ws(trim_start(s)[0]),
    decreases s.len(),
{
    if s.len() > 0 && is_ws(s[0]) {
        lemma_trim_start_suffix(s.drop_first());
        assert(s.drop_first().subrange(
            s.drop_first().len() - trim_start(s).len(),
            s.drop_first().len() as int,
        ) =~= s.subrange(s.len() - trim_start(s).len(), s.len() as int));
    } else {
        assert(s.subrange(0, s.len() as int) =~= s);
    }
}

pub proof fn lemma_prefix_trans(x: Seq<char>, y: Seq<char>, z: Seq<char>)
    requires
        is_prefix(x, y),
        is_prefix(y, z),
    ensures
        is_prefix(x, z),
{
    assert(x =~= z.subrange(0, x.len() as int));
}

pub proof fn lemma_split_first_prefix(s: Seq<char>, sep: char)
    ensures
        split(s, sep).len() >= 1,
        is_prefix(split(s, sep)[0], s),
    decreases s.len(),
{
    if s.len() == 0 {
        assert(s.subrange(0, 0) =~= s);
        assert(split(s, sep)[0] =~= s);
    } else {
        let init = s.drop_last();
        lemma_split_first_prefix(init, sep);
        let head = split(init, sep);
        if s.last() == sep {
            assert(split(s, sep)[0] == head[0]);
            assert(is_prefix(init, s)) by {
                assert(init =~= s.subrange(0, init.len() as int));
            }
            lemma_prefix_trans(head[0], init, s);
        } else if head.len() == 1 {
            lemma_split_single_piece(init, sep);
            assert(split(s, sep)[0] == head[0].push(s.last()));
            assert(head[0].push(s.last()) =~= s);
            assert(s.subrange(0, s.len() as int) =~= s);
        } else {
            assert(split(s, sep)[0] == head[0]);
            assert(is_prefix(init, s)) by {
                assert(init =~= s.subrange(0, init.len() as int));
            }
            lemma_prefix_trans(head[0], init, s);
        }
    }
}

pub proof fn lemma_token_start_bound(s: Seq<char>)
    ensures
        token_start(s) <= s.len(),
    decreases s.len(),
{
    if s.len() > 0 && !is_ws(s.last()) {
        lemma_token_start_bound(s.drop_last());
    }
}

proof fn lemma_split_single_piece(s: Seq<char>, sep: char)
    requires
        split(s, sep).len() == 1,
    ensures
        split(s, sep)[0] == s,
    decreases s.len(),
{
    if s.len() > 0 {
        let init = s.drop_last();
        lemma_split_len(init, sep);
        if s.last() != sep {
            lemma_split_single_piece(init, sep);
            assert(split(s, sep)[0] =~= s);
        }
    }
}

proof fn lemma_split_len(s: Seq<char>, sep: char)
    ensures
        split(s, sep).len() >= 1,
    decreases s.len(),
{
    if s.len() > 0 {
        lemma_split_len(s.drop_last(), sep);
    }
}

pub fn is_whitespace_char(c: char) -> (b: bool)
    ensures
        b == is_ws(c),
{
    let u = c as u32;
    (9 <= u && u <= 13) || u == 32 || u == 0x85 || u == 0xA0 || u == 0x1680 || (0x2000 <= u && u
        <= 0x200A) || u == 0x2028 || u == 0x2029 || u == 0x202F || u == 0x205F || u == 0x3000
}

/// The characters of `s`, in order.
pub fn chars_of(s: &str) -> (v: Vec<char>)
    ensures
        v@ == s@,
{
    let n = s.unicode_len();
    let mut v: Vec<char> = Vec::new();
    let mut i: usize = 0;
    while i < n
        invariant
            n == s@.len(),
            i <= n,
            v@ == s@.subrange(0, i as int),
        decreases n - i,
    {
        v.push(s.get_char(i));
        i = i + 1;
    }
    v
}

/// Skips whitespace at the front of the window `[lo, hi)`.
pub fn skip_ws_forward(v: &Vec<char>, lo: usize, hi: usize) -> (l: usize)
    requires
        lo <= hi <= v@.len(),
    ensures
        lo <= l <= hi,
        v@.subrange(l as int, hi as int) == trim_start(v@.subrange(lo as int, hi as int)),
{
    let mut l = lo;
    while l < hi && is_whitespace_char(v[l])
        invariant
            lo <= l <= hi,
            hi <= v@.len(),
            trim_start(v@.subrange(l as int, hi as int)) == trim_start(
                v@.subrange(lo as int, hi as int),
            ),
        decreases hi - l,
    {
        assert(v@.subrange(l as int, hi as int).drop_first() =~= v@.subrange(
            l + 1,
            hi as int,
        ));
        l = l + 1;
    }
    l
}

/// Skips whitespace at the back of the window `[lo, hi)`.
pub fn skip_ws_backward(v: &Vec<char>, lo: usize, hi: usize) -> (h: usize)
    requires
        lo <= hi <= v@.len(),
    ensures
        lo <= h <= hi,
        v@.subrange(lo as int, h as int) == trim_end(v@.subrange(lo as int, hi as int)),
{
    let mut h = hi;
    while h > lo && is_whitespace_char(v[h - 1])
        invariant
            lo <= h <= hi,
            hi <= v@.len(),
            trim_end(v@.subrange(lo as int, h as int)) == trim_end(
                v@.subrange(lo as int, hi as int),
            ),
        decreases h - lo,
    {
        assert(v@.subrange(lo as int, h as int).drop_last() =~= v@.subrange(
            lo as int,
            h - 1,
        ));
        h = h - 1;
    }
    h
}

/// Finds where the last run of non-whitespace characters in `[lo, hi)` begins.
pub fn find_token_start(v: &Vec<char>, lo: usize, hi: usize) -> (k: usize)
    requires
        lo <= hi <= v@.len(),
    ensures
        lo <= k <= hi,
        k == lo + token_start(v@.subrange(lo as int, hi as int)),
{
    let mut k = hi;
    while k > lo && !is_whitespace_char(v[k - 1])
        invariant
            lo <= k <= hi,
            hi <= v@.len(),
            token_start(v@.subrange(lo as int, hi as int)) == token_start(
                v@.subrange(lo as int, k as int),
            ),
        decreases k - lo,
    {
        assert(v@.subrange(lo as int, k as int).drop_last() =~= v@.subrange(
            lo as int,
            k - 1,
        ));
        k = k - 1;
    }
    k
}

/// Reads the window `[lo, hi)` as a decimal numeral no greater than `max`.
pub fn parse_numeral(v: &Vec<char>, lo: usize, hi: usize, max: usize) -> (r: Option<usize>)
    requires
        lo <= hi <= v@.len(),
    ensures
        match bounded_numeral(v@.subrange(lo as int, hi as int), max as nat) {
            Some(n) => r == Some(n as usize),
            None => r is None,
        },
{
    let ghost s = v@.subrange(lo as int, hi as int);
    if lo == hi {
        return None;
    }
    let mut acc: usize = 0;
    let mut i = lo;
    while i < hi
        invariant
            lo <= i <= hi,
            hi <= v@.len(),
            s == v@.subrange(lo as int, hi as int),
            acc <= max,
            acc == numeral_value(v@.subrange(lo as int, i as int)),
            forall|j: int| lo <= j < i ==> is_digit(#[trigger] v@[j]),
        decreases hi - i,
    {
        let c = v[i];
        let u = c as u32;
        assert(v@.subrange(lo as int, i + 1).drop_last() =~= v@.subrange(lo as int, i as int));
        if u < 48 || u > 57 {
            assert(!is_digit(s[i - lo]));
            return None;
        }
        let d = (u - 48) as usize;
        proof {
            lemma_numeral_prefix(s, i + 1 - lo);
            assert(s.subrange(0, i + 1 - lo) =~= v@.subrange(lo as int, i + 1));
        }
        match acc.checked_mul(10) {
            None => {
                return None;
            },
            Some(m) => match m.checked_add(d) {
                None => {
                    return None;
                },
                Some(n) => {
                    if n > max {
                        return None;
                    }
                    acc = n;
                },
            },
        }
        i = i + 1;
    }
    assert(v@.subrange(lo as int, i as int) =~= s);
    Some(acc)
}

/// The windows of `[lo, hi)` between occurrences of `sep`.
pub fn split_windows(v: &Vec<char>, lo: usize, hi: usize, sep: char) -> (r: Vec<(usize, usize)>)
    requires
        lo <= hi <= v@.len(),
    ensures
        r@.len() == split(v@.subrange(lo as int, hi as int), sep).len(),
        r@.len() > 0,
        r@[0].0 == lo,
        forall|j: int| 0 <= j < r@.len() - 1 ==> (#[trigger] r@[j]).1 < hi,
        forall|j: int|
            0 <= j < r@.len() ==> lo <= (#[trigger] r@[j]).0 <= r@[j].1 <= hi && v@.subrange(
                r@[j].0 as int,
                r@[j].1 as int,
            ) == split(v@.subrange(lo as int, hi as int), sep)[j],
{
    let mut out: Vec<(usize, usize)> = Vec::new();
    let ghost mut done: Seq<Seq<char>> = Seq::empty();
    let mut st = lo;
    let mut i = lo;
    assert(v@.subrange(lo as int, lo as int) =~= Seq::<char>::empty());
    assert(split(Seq::<char>::empty(), sep) =~= done.push(Seq::<char>::empty()));
    while i < hi
        invariant
            lo <= st <= i <= hi,
            hi <= v@.len(),
            done.len() == out@.len(),
            out@.len() == 0 ==> st == lo,
            out@.len() > 0 ==> out@[0].0 == lo,
            forall|j: int| 0 <= j < out@.len() ==> (#[trigger] out@[j]).1 < i,
            forall|j: int|
                0 <= j < out@.len() ==> lo <= (#[trigger] out@[j]).0 <= out@[j].1 <= hi
                    && v@.subrange(out@[j].0 as int, out@[j].1 as int) == done[j],
            split(v@.subrange(lo as int, i as int), sep) == done.push(
                v@.subrange(st as int, i as int),
            ),
        decreases hi - i,
    {
        let ghost sub = v@.subrange(lo as int, i + 1);
        assert(sub.drop_last() =~= v@.subrange(lo as int, i as int));
        if v[i] == sep {
            out.push((st, i));
            proof {
                done = done.push(v@.subrange(st as int, i as int));
                assert(v@.subrange(i + 1, i + 1) =~= Seq::<char>::empty());
            }
            st = i + 1;
        } else {
            assert(v@.subrange(st as int, i + 1) =~= v@.subrange(st as int, i as int).push(v@[i as int]));
            assert(done.push(v@.subrange(st as int, i as int)).update(
                done.len() as int,
                v@.subrange(st as int, i + 1),
            ) =~= done.push(v@.subrange(st as int, i + 1)));
        }
        i = i + 1;
    }
    out.push((st, hi));
    proof {
        done = done.push(v@.subrange(st as int, hi as int));
    }
    out
}

} // verus!
