//! Parsing of the marked options block: split text into lines, locate the
//! start and end marker lines, find the options line between them, and
//! extract the 4-to-5-digit rate values listed on it.

use vstd::prelude::*;

verus! {

/// ASCII whitespace as it occurs in config text.
pub open spec fn is_space(c: char) -> bool {
    c == ' ' || c == '\t' || c == '\r' || c == '\n'
}

/// An ASCII decimal digit.
pub open spec fn is_digit(c: char) -> bool {
    48 <= c as u32 && c as u32 <= 57
}

/// The index of the first newline in `s` at or after `i`, or `s.len()`
/// when no newline follows.
pub open spec fn next_nl(s: Seq<char>, i: int) -> int
    recommends
        0 <= i <= s.len(),
    decreases s.len() - i,
{
    if i < 0 || i >= s.len() {
        s.len() as int
    } else if s[i] == '\n' {
        i
    } else {
        next_nl(s, i + 1)
    }
}

pub proof fn lemma_next_nl(s: Seq<char>, i: int)
    requires
        0 <= i <= s.len(),
    ensures
        i <= next_nl(s, i) <= s.len(),
        next_nl(s, i) < s.len() ==> s[next_nl(s, i)] == '\n',
        forall|j: int| i <= j < next_nl(s, i) ==> s[j] != '\n',
    decreases s.len() - i,
{
    if i < s.len() && s[i] != '\n' {
        lemma_next_nl(s, i + 1);
    }
}

/// The lines of `s` from position `i` on: segments between newlines, the
/// newlines themselves dropped, and no empty final line after a trailing
/// newline.
pub open spec fn spec_lines_from(s: Seq<char>, i: int) -> Seq<Seq<char>>
    recommends
        0 <= i <= s.len(),
    decreases s.len() - i,
    when 0 <= i <= s.len()
    via spec_lines_from_decreases
{
    if i >= s.len() {
        Seq::empty()
    } else {
        let j = next_nl(s, i);
        if j < s.len() {
            seq![s.subrange(i, j)] + spec_lines_from(s, j + 1)
        } else {
            seq![s.subrange(i, j)]
        }
    }
}

#[via_fn]
proof fn spec_lines_from_decreases(s: Seq<char>, i: int) {
    if 0 <= i < s.len() {
        lemma_next_nl(s, i);
    }
}

/// The lines of `s`.
pub open spec fn spec_lines(s: Seq<char>) -> Seq<Seq<char>> {
    spec_lines_from(s, 0)
}

/// `m` occurs in `s` as a contiguous subsequence.
pub open spec fn has_subseq(s: Seq<char>, m: Seq<char>) -> bool {
    exists|k: int| 0 <= k && k + m.len() <= s.len() && #[trigger] s.subrange(k, k + m.len() as int)
        == m
}

/// The index of the first line of `lines` that contains `m`, if any.
pub open spec fn first_containing(lines: Seq<Seq<char>>, m: Seq<char>) -> Option<int>
    decreases lines.len(),
{
    if lines.len() == 0 {
        None
    } else if has_subseq(lines[0], m) {
        Some(0)
    } else {
        match first_containing(lines.drop_first(), m) {
            Some(i) => Some(i + 1),
            None => None,
        }
    }
}

/// What `first_containing` returns: the first index whose line contains
/// `m`, or `None` when no line does.
pub proof fn lemma_first_containing(lines: Seq<Seq<char>>, m: Seq<char>)
    ensures
        match first_containing(lines, m) {
            Some(i) => {
                &&& 0 <= i < lines.len()
                &&& has_subseq(lines[i], m)
                &&& forall|j: int| 0 <= j < i ==> !has_subseq(#[trigger] lines[j], m)
            },
            None => forall|j: int| 0 <= j < lines.len() ==> !has_subseq(#[trigger] lines[j], m),
        },
    decreases lines.len(),
{
    if lines.len() > 0 && !has_subseq(lines[0], m) {
        lemma_first_containing(lines.drop_first(), m);
        match first_containing(lines.drop_first(), m) {
            Some(i0) => {
                assert(lines[i0 + 1] == lines.drop_first()[i0]);
                assert forall|j: int| 0 <= j < i0 + 1 implies !has_subseq(
                    #[trigger] lines[j],
                    m,
                ) by {
                    if j > 0 {
                        assert(lines[j] == lines.drop_first()[j - 1]);
                    }
                }
            },
            None => {
                assert forall|j: int| 0 <= j < lines.len() implies !has_subseq(
                    #[trigger] lines[j],
                    m,
                ) by {
                    if j > 0 {
                        assert(lines[j] == lines.drop_first()[j - 1]);
                    }
                }
            },
        }
    }
}

/// The converse direction: a first match at `i` pins `first_containing`.
pub proof fn lemma_first_containing_at(lines: Seq<Seq<char>>, m: Seq<char>, i: int)
    requires
        0 <= i < lines.len(),
        has_subseq(lines[i], m),
        forall|j: int| 0 <= j < i ==> !has_subseq(#[trigger] lines[j], m),
    ensures
        first_containing(lines, m) == Some(i),
    decreases lines.len(),
{
    if i > 0 {
        assert(forall|j: int| 0 <= j < i - 1 ==> lines.drop_first()[j] == lines[j + 1]);
        lemma_first_containing_at(lines.drop_first(), m, i - 1);
    }
}

/// No line contains `m`: `first_containing` finds nothing.
pub proof fn lemma_first_containing_none(lines: Seq<Seq<char>>, m: Seq<char>)
    requires
        forall|j: int| 0 <= j < lines.len() ==> !has_subseq(#[trigger] lines[j], m),
    ensures
        first_containing(lines, m) is None,
    decreases lines.len(),
{
    if lines.len() > 0 {
        assert(forall|j: int| 0 <= j < lines.len() - 1 ==> lines.drop_first()[j] == lines[j + 1]);
        lemma_first_containing_none(lines.drop_first(), m);
    }
}

/// The first index in `s` at or after `i` holding a non-whitespace
/// character, or `s.len()`.
pub open spec fn skip_ws(s: Seq<char>, i: int) -> int
    recommends
        0 <= i <= s.len(),
    decreases s.len() - i,
{
    if i < 0 || i >= s.len() {
        s.len() as int
    } else if is_space(s[i]) {
        skip_ws(s, i + 1)
    } else {
        i
    }
}

pub proof fn lemma_skip_ws(s: Seq<char>, i: int)
    requires
        0 <= i <= s.len(),
    ensures
        i <= skip_ws(s, i) <= s.len(),
        skip_ws(s, i) < s.len() ==> !is_space(s[skip_ws(s, i)]),
        forall|j: int| i <= j < skip_ws(s, i) ==> is_space(s[j]),
    decreases s.len() - i,
{
    if i < s.len() && is_space(s[i]) {
        lemma_skip_ws(s, i + 1);
    }
}

/// The header that announces the allowed rates inside the marked block.
pub open spec fn options_prefix() -> Seq<char> {
    "# Sample Rate Options ="@
}

/// The line announces the allowed rates: after leading whitespace it
/// starts with the options header.
pub open spec fn is_options_line(line: Seq<char>) -> bool {
    let t = skip_ws(line, 0);
    t + options_prefix().len() <= line.len() && line.subrange(
        t,
        t + options_prefix().len() as int,
    ) == options_prefix()
}

/// The index of the first options line among `lines[lo..=hi]`, if any.
pub open spec fn first_options_in(lines: Seq<Seq<char>>, lo: int, hi: int) -> Option<int>
    recommends
        0 <= lo,
        hi < lines.len(),
    decreases hi + 1 - lo,
{
    if lo > hi {
        None
    } else if is_options_line(lines[lo]) {
        Some(lo)
    } else {
        first_options_in(lines, lo + 1, hi)
    }
}

/// The count of consecutive digits in `s` starting at `i`.
pub open spec fn run_len(s: Seq<char>, i: int) -> int
    recommends
        0 <= i <= s.len(),
    decreases s.len() - i,
{
    if i < 0 || i >= s.len() || !is_digit(s[i]) {
        0
    } else {
        1 + run_len(s, i + 1)
    }
}

pub proof fn lemma_run_len(s: Seq<char>, i: int)
    requires
        0 <= i <= s.len(),
    ensures
        0 <= run_len(s, i) <= s.len() - i,
        forall|j: int| i <= j < i + run_len(s, i) ==> is_digit(s[j]),
        i + run_len(s, i) < s.len() ==> !is_digit(s[i + run_len(s, i)]),
    decreases s.len() - i,
{
    if i < s.len() && is_digit(s[i]) {
        lemma_run_len(s, i + 1);
    }
}

/// The value of the `n` decimal digits of `s` starting at `i`.
pub open spec fn digits_val(s: Seq<char>, i: int, n: int) -> int
    recommends
        0 <= i,
        0 <= n,
        i + n <= s.len(),
    decreases n,
{
    if n <= 0 {
        0
    } else {
        digits_val(s, i, n - 1) * 10 + (s[i + n - 1] as u32 - 48)
    }
}

/// `10^n`.
pub open spec fn pow10(n: nat) -> int
    decreases n,
{
    if n == 0 {
        1
    } else {
        10 * pow10((n - 1) as nat)
    }
}

pub proof fn lemma_digits_val_bound(s: Seq<char>, i: int, n: int)
    requires
        0 <= i,
        0 <= n,
        i + n <= s.len(),
        forall|j: int| i <= j < i + n ==> is_digit(#[trigger] s[j]),
    ensures
        0 <= digits_val(s, i, n) < pow10(n as nat),
    decreases n,
{
    if n > 0 {
        lemma_digits_val_bound(s, i, n - 1);
    }
}

/// The rate values listed in `s` from position `i` on, as the one regular
/// scan finds them: at each run of digits, a match of the leftmost four
/// or, greedily, five digits, the scan resuming right after the match;
/// runs shorter than four digits yield nothing.
pub open spec fn extract_from(s: Seq<char>, i: int) -> Seq<u32>
    recommends
        0 <= i <= s.len(),
    decreases s.len() - i,
    when 0 <= i <= s.len()
    via extract_from_decreases
{
    if i >= s.len() {
        Seq::empty()
    } else if !is_digit(s[i]) {
        extract_from(s, i + 1)
    } else {
        let r = run_len(s, i);
        if r >= 4 {
            let t: int = if r >= 5 {
                5
            } else {
                4
            };
            seq![digits_val(s, i, t) as u32] + extract_from(s, i + t)
        } else {
            extract_from(s, i + r)
        }
    }
}

#[via_fn]
proof fn extract_from_decreases(s: Seq<char>, i: int) {
    if 0 <= i < s.len() && is_digit(s[i]) {
        lemma_run_len(s, i);
    }
}

/// The rate values listed in `s`.
pub open spec fn extracted_rates(s: Seq<char>) -> Seq<u32> {
    extract_from(s, 0)
}

fn find_nl(s: &str, i: usize) -> (j: usize)
    requires
        i <= s@.len(),
    ensures
        j == next_nl(s@, i as int),
    decreases s@.len() - i,
{
    if i == s.unicode_len() {
        i
    } else if s.get_char(i) == '\n' {
        i
    } else {
        find_nl(s, i + 1)
    }
}

fn split_lines_from(s: &str, i: usize) -> (r: Vec<String>)
    requires
        i <= s@.len(),
    ensures
        r.deep_view() == spec_lines_from(s@, i as int),
    decreases s@.len() - i,
{
    let n = s.unicode_len();
    if i >= n {
        let r: Vec<String> = Vec::new();
        proof {
            assert(r.deep_view() =~= spec_lines_from(s@, i as int));
        }
        r
    } else {
        let j = find_nl(s, i);
        proof {
            lemma_next_nl(s@, i as int);
        }
        let line = s.substring_char(i, j).to_owned();
        let mut rest: Vec<String> = if j < n {
            split_lines_from(s, j + 1)
        } else {
            Vec::new()
        };
        rest.insert(0, line);
        proof {
            assert(rest.deep_view() =~= spec_lines_from(s@, i as int));
        }
        rest
    }
}

/// Split `s` into its lines.
fn split_lines(s: &str) -> (r: Vec<String>)
    ensures
        r.deep_view() == spec_lines(s@),
{
    split_lines_from(s, 0)
}

pub(crate) fn matches_at(s: &str, m: &str, k: usize) -> (r: bool)
    requires
        k + m@.len() <= s@.len(),
    ensures
        r == (s@.subrange(k as int, k as int + m@.len() as int) == m@),
{
    let mlen = m.unicode_len();
    let slen = s.unicode_len();
    let mut j: usize = 0;
    while j < mlen
        invariant
            mlen == m@.len(),
            slen == s@.len(),
            k + mlen <= slen,
            j <= mlen,
            forall|t: int| 0 <= t < j ==> s@[k + t] == m@[t],
        decreases mlen - j,
    {
        if s.get_char(k + j) != m.get_char(j) {
            proof {
                assert(s@.subrange(k as int, k as int + m@.len() as int)[j as int] != m@[
                j as int]);
            }
            return false;
        }
        j += 1;
    }
    proof {
        assert(s@.subrange(k as int, k as int + m@.len() as int) =~= m@);
    }
    true
}

/// Whether `s` contains `m` as a contiguous substring.
fn contains_str(s: &str, m: &str) -> (r: bool)
    ensures
        r == has_subseq(s@, m@),
{
    let slen = s.unicode_len();
    let mlen = m.unicode_len();
    if mlen > slen {
        return false;
    }
    if mlen == 0 {
        proof {
            assert(s@.subrange(0, 0 + m@.len() as int) =~= m@);
        }
        return true;
    }
    let mut k: usize = 0;
    while k <= slen - mlen
        invariant
            slen == s@.len(),
            mlen == m@.len(),
            1 <= mlen <= slen,
            k <= slen - mlen + 1,
            forall|t: int| 0 <= t < k ==> #[trigger] s@.subrange(t, t + m@.len() as int) != m@,
        decreases slen - mlen - k + 1,
    {
        if matches_at(s, m, k) {
            return true;
        }
        k += 1;
    }
    proof {
        assert forall|t: int| !(0 <= t && t + m@.len() <= s@.len() && #[trigger] s@.subrange(
            t,
            t + m@.len() as int,
        ) == m@) by {
            if 0 <= t && t + m@.len() <= s@.len() {
                assert(t < k);
            }
        }
    }
    false
}

fn first_line_containing(lines: &Vec<String>, m: &str) -> (r: Option<usize>)
    ensures
        match r {
            Some(i) => first_containing(lines.deep_view(), m@) == Some(i as int),
            None => first_containing(lines.deep_view(), m@) is None,
        },
{
    let n = lines.len();
    let mut i: usize = 0;
    while i < n
        invariant
            n == lines@.len(),
            i <= n,
            forall|j: int| 0 <= j < i ==> !has_subseq(#[trigger] lines.deep_view()[j], m@),
        decreases n - i,
    {
        if contains_str(lines[i].as_str(), m) {
            proof {
                lemma_first_containing_at(lines.deep_view(), m@, i as int);
            }
            return Some(i);
        }
        i += 1;
    }
    proof {
        lemma_first_containing_none(lines.deep_view(), m@);
    }
    None
}

pub(crate) fn skip_ws_exec(s: &str, i: usize) -> (j: usize)
    requires
        i <= s@.len(),
    ensures
        j == skip_ws(s@, i as int),
    decreases s@.len() - i,
{
    if i == s.unicode_len() {
        i
    } else {
        let c = s.get_char(i);
        if c == ' ' || c == '\t' || c == '\r' || c == '\n' {
            skip_ws_exec(s, i + 1)
        } else {
            i
        }
    }
}

/// Whether `line`, after leading whitespace, starts with the options
/// header.
fn is_opts_line(line: &str) -> (r: bool)
    ensures
        r == is_options_line(line@),
{
    let header = "# Sample Rate Options =";
    let t = skip_ws_exec(line, 0);
    proof {
        lemma_skip_ws(line@, 0);
    }
    let llen = line.unicode_len();
    let hlen = header.unicode_len();
    if hlen <= llen - t {
        matches_at(line, header, t)
    } else {
        false
    }
}

fn find_options_between(lines: &Vec<String>, lo: usize, hi: usize) -> (r: Option<usize>)
    requires
        hi < lines@.len(),
    ensures
        match r {
            Some(i) => first_options_in(lines.deep_view(), lo as int, hi as int) == Some(i as int)
                && lo <= i <= hi,
            None => first_options_in(lines.deep_view(), lo as int, hi as int) is None,
        },
    decreases hi + 1 - lo,
{
    if lo > hi {
        None
    } else if is_opts_line(lines[lo].as_str()) {
        Some(lo)
    } else {
        let _line_count = lines.len();
        find_options_between(lines, lo + 1, hi)
    }
}

pub(crate) fn digit_run_len(s: &str, i: usize) -> (r: usize)
    requires
        i <= s@.len(),
    ensures
        r == run_len(s@, i as int),
    decreases s@.len() - i,
{
    if i == s.unicode_len() {
        0
    } else {
        let u = s.get_char(i) as u32;
        if 48 <= u && u <= 57 {
            proof {
                lemma_run_len(s@, i as int + 1);
            }
            1 + digit_run_len(s, i + 1)
        } else {
            0
        }
    }
}

pub(crate) fn read_digits(s: &str, i: usize, n: usize) -> (v: u32)
    requires
        i + n <= s@.len(),
        n <= 5,
        forall|j: int| i <= j < i + n ==> is_digit(#[trigger] s@[j]),
    ensures
        v as int == digits_val(s@, i as int, n as int),
{
    let slen = s.unicode_len();
    let mut v: u32 = 0;
    let mut k: usize = 0;
    while k < n
        invariant
            slen == s@.len(),
            i + n <= s@.len(),
            n <= 5,
            k <= n,
            forall|j: int| i <= j < i + n ==> is_digit(#[trigger] s@[j]),
            v as int == digits_val(s@, i as int, k as int),
            (v as int) < pow10(k as nat),
        decreases n - k,
    {
        proof {
            assert(pow10(1) == 10 * pow10(0));
            assert(pow10(2) == 10 * pow10(1));
            assert(pow10(3) == 10 * pow10(2));
            assert(pow10(4) == 10 * pow10(3));
            assert(pow10(5) == 10 * pow10(4));
        }
        let c = s.get_char(i + k);
        assert(is_digit(s@[i + k]));
        let d = (c as u32) - 48;
        v = v * 10 + d;
        k += 1;
    }
    v
}

fn extract_rates_from(s: &str, i: usize) -> (r: Vec<u32>)
    requires
        i <= s@.len(),
    ensures
        r@ == extract_from(s@, i as int),
    decreases s@.len() - i,
{
    let n = s.unicode_len();
    if i >= n {
        let r: Vec<u32> = Vec::new();
        proof {
            assert(r@ =~= extract_from(s@, i as int));
        }
        r
    } else {
        let u = s.get_char(i) as u32;
        if !(48 <= u && u <= 57) {
            extract_rates_from(s, i + 1)
        } else {
            let run = digit_run_len(s, i);
            proof {
                lemma_run_len(s@, i as int);
            }
            if run >= 4 {
                let t: usize = if run >= 5 {
                    5
                } else {
                    4
                };
                let v = read_digits(s, i, t);
                proof {
                    lemma_digits_val_bound(s@, i as int, t as int);
                    assert(pow10(1) == 10 * pow10(0));
                    assert(pow10(2) == 10 * pow10(1));
                    assert(pow10(3) == 10 * pow10(2));
                    assert(pow10(4) == 10 * pow10(3));
                    assert(pow10(5) == 10 * pow10(4));
                }
                let mut rest = extract_rates_from(s, i + t);
                rest.insert(0, v);
                proof {
                    assert(rest@ =~= extract_from(s@, i as int));
                }
                rest
            } else {
                extract_rates_from(s, i + run)
            }
        }
    }
}

/// Extract every rate value listed in `s`, in the order found.
pub fn extract_rates(s: &str) -> (r: Vec<u32>)
    ensures
        r@ == extracted_rates(s@),
{
    extract_rates_from(s, 0)
}

/// The first rate value listed in `s`, if any.
pub fn first_rate_in(s: &str) -> (r: Option<u32>)
    ensures
        match r {
            Some(v) => extracted_rates(s@).len() > 0 && v == extracted_rates(s@)[0],
            None => extracted_rates(s@).len() == 0,
        },
{
    let nums = extract_rates(s);
    if nums.len() == 0 {
        None
    } else {
        Some(nums[0])
    }
}

/// Sort `v` ascending and drop duplicates: the unique strictly increasing
/// sequence over the same set of values.
pub fn sort_dedup(v: &Vec<u32>) -> (r: Vec<u32>)
    ensures
        crate::cycle::strictly_increasing(r@),
        r@.to_set() == v@.to_set(),
{
    let mut r: Vec<u32> = Vec::new();
    let mut i: usize = 0;
    while i < v.len()
        invariant
            i <= v@.len(),
            crate::cycle::strictly_increasing(r@),
            r@.to_set() == v@.take(i as int).to_set(),
        decreases v@.len() - i,
    {
        let x = v[i];
        let ghost old_r = r@;
        let mut j: usize = 0;
        while j < r.len() && r[j] < x
            invariant
                j <= r@.len(),
                r@ == old_r,
                crate::cycle::strictly_increasing(r@),
                forall|t: int| 0 <= t < j ==> r@[t] < x,
            decreases r@.len() - j,
        {
            j += 1;
        }
        if j == r.len() || r[j] > x {
            r.insert(j, x);
            proof {
                assert forall|a: int, b: int| 0 <= a < b < r@.len() implies r@[a] < r@[b] by {
                    if b <= j {
                        assert(r@[a] == old_r[a] && (b < j ==> r@[b] == old_r[b]));
                    } else if a >= j {
                        assert((a > j ==> r@[a] == old_r[a - 1]) && r@[b] == old_r[b - 1]);
                    } else {
                        assert(r@[a] == old_r[a] && r@[b] == (if b == j {
                            x
                        } else {
                            old_r[b - 1]
                        }));
                    }
                }
            }
        }
        proof {
            let tk = v@.take(i as int);
            let tk1 = v@.take(i + 1);
            assert(tk1.drop_last() =~= tk);
            assert(tk1.last() == x);
            assert forall|y: u32| r@.to_set().contains(y) <==> tk1.to_set().contains(y) by {
                assert(r@.to_set().contains(y) == r@.contains(y));
                assert(tk1.to_set().contains(y) == tk1.contains(y));
                assert(tk.to_set().contains(y) == tk.contains(y));
                assert(old_r.to_set().contains(y) == old_r.contains(y));
                if r@.contains(y) {
                    let t = choose|t: int| 0 <= t < r@.len() && r@[t] == y;
                    if r@ == old_r || y != x {
                        assert(old_r.contains(y)) by {
                            if r@ != old_r {
                                if t < j {
                                    assert(old_r[t] == y);
                                } else {
                                    assert(old_r[t - 1] == y);
                                }
                            }
                        }
                        assert(tk.contains(y));
                        let w = choose|w: int| 0 <= w < tk.len() && tk[w] == y;
                        assert(tk1[w] == y);
                        assert(tk1.contains(y));
                    } else {
                        assert(tk1[i as int] == x);
                        assert(tk1.contains(y));
                    }
                }
                if tk1.contains(y) {
                    let w = choose|w: int| 0 <= w < tk1.len() && tk1[w] == y;
                    if w < i {
                        assert(tk[w] == y);
                        assert(tk.contains(y));
                        assert(old_r.contains(y));
                        let t = choose|t: int| 0 <= t < old_r.len() && old_r[t] == y;
                        if r@ == old_r {
                            assert(r@[t] == y);
                        } else {
                            if t < j {
                                assert(r@[t] == y);
                            } else {
                                assert(r@[t + 1] == y);
                            }
                        }
                        assert(r@.contains(y));
                    } else {
                        assert(y == x);
                        assert(r@[j as int] == x);
                        assert(r@.contains(y));
                    }
                }
            }
            assert(r@.to_set() =~= tk1.to_set());
        }
        i += 1;
    }
    proof {
        assert(v@.take(v@.len() as int) =~= v@);
    }
    r
}

/// Why a config text holds no usable options block.
#[derive(Clone, Copy, Debug, PartialEq, Eq, Structural)]
pub enum ParseError {
    /// No line contains the start marker.
    MissingStartMarker,
    /// No line contains the end marker.
    MissingEndMarker,
    /// The first end-marker line does not come after the first
    /// start-marker line.
    MarkersOutOfOrder,
    /// No line of the marked block carries the options header.
    MissingOptionsLine,
    /// The options line lists no rate value.
    NoRatesFound,
}

/// The error that parsing `content` must report, or `None` when a
/// non-empty rate list is found: the first start-marker line and the
/// first end-marker line must exist in that order, and the first options
/// line between them must list at least one rate.
pub open spec fn spec_parse_err(content: Seq<char>, sm: Seq<char>, em: Seq<char>) -> Option<
    ParseError,
> {
    let lines = spec_lines(content);
    match (first_containing(lines, sm), first_containing(lines, em)) {
        (None, _) => Some(ParseError::MissingStartMarker),
        (Some(_), None) => Some(ParseError::MissingEndMarker),
        (Some(si), Some(ei)) => if ei <= si {
            Some(ParseError::MarkersOutOfOrder)
        } else {
            match first_options_in(lines, si, ei) {
                None => Some(ParseError::MissingOptionsLine),
                Some(oi) => if extracted_rates(lines[oi]).len() == 0 {
                    Some(ParseError::NoRatesFound)
                } else {
                    None
                },
            }
        },
    }
}

/// Parse the allowed rates out of `content`: between the first line
/// containing `start_marker` and the first line containing `end_marker`,
/// the first options line is scanned for 4-to-5-digit values, which are
/// returned sorted ascending without duplicates.
pub fn parse_options_from_sway(content: &str, start_marker: &str, end_marker: &str) -> (r: Result<
    Vec<u32>,
    ParseError,
>)
    ensures
        ({
            let lines = spec_lines(content@);
            match r {
                Ok(v) => {
                    &&& spec_parse_err(content@, start_marker@, end_marker@) is None
                    &&& crate::cycle::strictly_increasing(v@)
                    &&& v@.len() > 0
                    &&& match (
                        first_containing(lines, start_marker@),
                        first_containing(lines, end_marker@),
                    ) {
                        (Some(si), Some(ei)) => match first_options_in(lines, si, ei) {
                            Some(oi) => v@.to_set() == extracted_rates(lines[oi]).to_set(),
                            None => false,
                        },
                        _ => false,
                    }
                },
                Err(e) => spec_parse_err(content@, start_marker@, end_marker@) == Some(e),
            }
        }),
{
    let lines = split_lines(content);
    let s_idx = match first_line_containing(&lines, start_marker) {
        Some(i) => i,
        None => {
            return Err(ParseError::MissingStartMarker);
        },
    };
    let e_idx = match first_line_containing(&lines, end_marker) {
        Some(i) => i,
        None => {
            return Err(ParseError::MissingEndMarker);
        },
    };
    if e_idx <= s_idx {
        return Err(ParseError::MarkersOutOfOrder);
    }
    proof {
        lemma_first_containing(lines.deep_view(), end_marker@);
    }
    let o_idx = match find_options_between(&lines, s_idx, e_idx) {
        Some(i) => i,
        None => {
            return Err(ParseError::MissingOptionsLine);
        },
    };
    let nums = extract_rates(lines[o_idx].as_str());
    if nums.len() == 0 {
        return Err(ParseError::NoRatesFound);
    }
    let r = sort_dedup(&nums);
    proof {
        assert(nums@.to_set().contains(nums@[0]));
        assert(r@.to_set().contains(nums@[0]) == r@.contains(nums@[0]));
        assert(r@.len() > 0);
    }
    Ok(r)
}

/// Malformed marker structure is always rejected: when the start or the
/// end marker is missing, or the first end-marker line does not come
/// strictly after the first start-marker line, parsing reports an error,
/// so nothing downstream of it can run.
pub proof fn lemma_malformed_markers_rejected(content: Seq<char>, sm: Seq<char>, em: Seq<char>)
    requires
        ({
            let lines = spec_lines(content);
            ||| first_containing(lines, sm) is None
            ||| first_containing(lines, em) is None
            ||| match (first_containing(lines, sm), first_containing(lines, em)) {
                (Some(si), Some(ei)) => ei <= si,
                _ => false,
            }
        }),
    ensures
        spec_parse_err(content, sm, em) is Some,
{
}

} // verus!
