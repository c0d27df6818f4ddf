//! The persisted selection: the canonical sample-rate config text that
//! gets written, and the grammar by which the active rate is read back
//! out of such text.

use vstd::prelude::*;
use crate::cycle::lemma_sorted_unique;
use crate::cycle::strictly_increasing;
use crate::parse::digit_run_len;
use crate::parse::digits_val;
use crate::parse::is_digit;
use crate::parse::is_space;
use crate::parse::lemma_digits_val_bound;
use crate::parse::lemma_run_len;
use crate::parse::lemma_skip_ws;
use crate::parse::matches_at;
use crate::parse::pow10;
use crate::parse::read_digits;
use crate::parse::run_len;
use crate::parse::skip_ws;
use crate::parse::skip_ws_exec;
use crate::parse::sort_dedup;

verus! {

/// The digit character for a value below ten.
pub open spec fn digit_char(d: int) -> char
    recommends
        0 <= d < 10,
{
    if d == 0 {
        '0'
    } else if d == 1 {
        '1'
    } else if d == 2 {
        '2'
    } else if d == 3 {
        '3'
    } else if d == 4 {
        '4'
    } else if d == 5 {
        '5'
    } else if d == 6 {
        '6'
    } else if d == 7 {
        '7'
    } else if d == 8 {
        '8'
    } else {
        '9'
    }
}

/// The decimal digits of `n`, most significant first.
pub open spec fn spec_dec(n: int) -> Seq<char>
    recommends
        n >= 0,
    decreases n,
{
    if n < 0 {
        Seq::empty()
    } else if n < 10 {
        seq![digit_char(n)]
    } else {
        spec_dec(n / 10) + seq![digit_char(n % 10)]
    }
}

fn push_digit(out: &mut String, d: u32)
    requires
        d < 10,
    ensures
        final(out)@ == old(out)@ + seq![digit_char(d as int)],
{
    let digits = "0123456789";
    proof {
        reveal_strlit("0123456789");
    }
    let ds = digits.substring_char(d as usize, d as usize + 1);
    proof {
        assert(ds@ =~= seq![digit_char(d as int)]);
    }
    out.append(ds);
}

fn push_dec(out: &mut String, n: u32)
    ensures
        final(out)@ == old(out)@ + spec_dec(n as int),
    decreases n,
{
    if n < 10 {
        push_digit(out, n);
    } else {
        push_dec(out, n / 10);
        push_digit(out, n % 10);
        proof {
            assert(out@ =~= old(out)@ + spec_dec(n as int));
        }
    }
}

/// The rates of `v`, in decimal, separated by single spaces.
pub open spec fn spec_join_dec(v: Seq<u32>) -> Seq<char>
    decreases v.len(),
{
    if v.len() == 0 {
        Seq::empty()
    } else if v.len() == 1 {
        spec_dec(v[0] as int)
    } else {
        spec_dec(v[0] as int) + seq![' '] + spec_join_dec(v.drop_first())
    }
}

fn push_join_dec(out: &mut String, v: &Vec<u32>, i: usize)
    requires
        i <= v@.len(),
    ensures
        final(out)@ == old(out)@ + spec_join_dec(v@.skip(i as int)),
    decreases v@.len() - i,
{
    if i == v.len() {
        proof {
            assert(out@ =~= old(out)@ + spec_join_dec(v@.skip(i as int)));
        }
    } else {
        push_dec(out, v[i]);
        if i + 1 < v.len() {
            out.append(" ");
            proof {
                reveal_strlit(" ");
            }
        }
        push_join_dec(out, v, i + 1);
        proof {
            let tail = v@.skip(i as int);
            assert(tail.drop_first() =~= v@.skip(i + 1));
            assert(tail[0] == v@[i as int]);
            assert(out@ =~= old(out)@ + spec_join_dec(v@.skip(i as int)));
        }
    }
}

/// The full canonical text persisted for a selection: a two-line
/// properties body giving the selected rate and the bracketed list of
/// allowed rates.
pub open spec fn spec_conf_text(rate: u32, allowed: Seq<u32>) -> Seq<char> {
    "context.properties = {\n    default.clock.rate          = "@ + spec_dec(rate as int)
        + "\n    default.clock.allowed-rates = [ "@ + spec_join_dec(allowed) + " ]\n}\n"@
}

/// Build the canonical config text for the new rate: the allowed rates
/// are listed sorted ascending without duplicates.
pub fn canonical_samplerate_conf(new_rate: u32, allowed_all: &Vec<u32>) -> (r: String)
    ensures
        exists|w: Seq<u32>|
            strictly_increasing(w) && w.to_set() == allowed_all@.to_set() && r@ == spec_conf_text(
                new_rate,
                w,
            ),
        strictly_increasing(allowed_all@) ==> r@ == spec_conf_text(new_rate, allowed_all@),
{
    let v = sort_dedup(allowed_all);
    let mut out = String::new();
    out.append("context.properties = {\n    default.clock.rate          = ");
    push_dec(&mut out, new_rate);
    out.append("\n    default.clock.allowed-rates = [ ");
    push_join_dec(&mut out, &v, 0);
    out.append(" ]\n}\n");
    proof {
        assert(v@.skip(0) =~= v@);
        assert(out@ =~= spec_conf_text(new_rate, v@));
        if strictly_increasing(allowed_all@) {
            lemma_sorted_unique(v@, allowed_all@);
        }
    }
    out
}

/// The key that introduces the persisted rate.
pub open spec fn rate_key() -> Seq<char> {
    "default.clock.rate"@
}

/// The rate that the persisted-config grammar reads at position `p` of
/// `s`: the key, then whitespace, `=`, whitespace, an optional double
/// quote, then a run of at least four digits, of which the leftmost
/// four or, greedily, five give the value.
pub open spec fn rate_at(s: Seq<char>, p: int) -> Option<u32>
    recommends
        0 <= p <= s.len(),
{
    if p + rate_key().len() <= s.len() && s.subrange(p, p + rate_key().len() as int)
        == rate_key() {
        let j = skip_ws(s, p + rate_key().len() as int);
        if j < s.len() && s[j] == '=' {
            let k0 = skip_ws(s, j + 1);
            let k = if k0 < s.len() && s[k0] == '"' {
                k0 + 1
            } else {
                k0
            };
            let r = run_len(s, k);
            if r >= 4 {
                let t: int = if r >= 5 {
                    5
                } else {
                    4
                };
                Some((digits_val(s, k, t) as u32))
            } else {
                None
            }
        } else {
            None
        }
    } else {
        None
    }
}

/// The value at the first position of `s` at or after `p` where the
/// rate grammar matches, if any.
pub open spec fn find_rate_from(s: Seq<char>, p: int) -> Option<u32>
    recommends
        0 <= p <= s.len(),
    decreases s.len() - p,
{
    if p < 0 || p >= s.len() {
        None
    } else if rate_at(s, p) is Some {
        rate_at(s, p)
    } else {
        find_rate_from(s, p + 1)
    }
}

fn rate_at_exec(s: &str, p: usize) -> (r: Option<u32>)
    requires
        p <= s@.len(),
    ensures
        r == rate_at(s@, p as int),
{
    let key = "default.clock.rate";
    let klen = key.unicode_len();
    let slen = s.unicode_len();
    if klen > slen - p {
        return None;
    }
    if !matches_at(s, key, p) {
        return None;
    }
    let j = skip_ws_exec(s, p + klen);
    proof {
        lemma_skip_ws(s@, (p + klen) as int);
    }
    if j == slen {
        return None;
    }
    if s.get_char(j) != '=' {
        return None;
    }
    let k0 = skip_ws_exec(s, j + 1);
    proof {
        lemma_skip_ws(s@, j + 1);
    }
    let k = if k0 < slen && s.get_char(k0) == '"' {
        k0 + 1
    } else {
        k0
    };
    let run = digit_run_len(s, k);
    proof {
        lemma_run_len(s@, k as int);
    }
    if run >= 4 {
        let t: usize = if run >= 5 {
            5
        } else {
            4
        };
        let v = read_digits(s, k, t);
        proof {
            lemma_digits_val_bound(s@, k as int, t as int);
            assert(pow10(1) == 10 * pow10(0));
            assert(pow10(2) == 10 * pow10(1));
            assert(pow10(3) == 10 * pow10(2));
            assert(pow10(4) == 10 * pow10(3));
            assert(pow10(5) == 10 * pow10(4));
        }
        Some(v)
    } else {
        None
    }
}

fn rate_from(s: &str, p: usize) -> (r: Option<u32>)
    requires
        p <= s@.len(),
    ensures
        r == find_rate_from(s@, p as int),
    decreases s@.len() - p,
{
    let slen = s.unicode_len();
    if p >= slen {
        None
    } else {
        match rate_at_exec(s, p) {
            Some(v) => Some(v),
            None => rate_from(s, p + 1),
        }
    }
}

/// Read the active rate out of persisted config text: the value at the
/// first position where the rate grammar matches, or nothing when the
/// text never matches it.
pub fn parse_current_rate(content: &str) -> (r: Option<u32>)
    ensures
        r == find_rate_from(content@, 0),
{
    rate_from(content, 0)
}

proof fn lemma_skip_ws_to(s: Seq<char>, i: int, j: int)
    requires
        0 <= i <= j <= s.len(),
        forall|t: int| i <= t < j ==> is_space(#[trigger] s[t]),
        j == s.len() || !is_space(s[j]),
    ensures
        skip_ws(s, i) == j,
    decreases j - i,
{
    if i < j {
        lemma_skip_ws_to(s, i + 1, j);
    }
}

proof fn lemma_run_len_exact(s: Seq<char>, i: int, j: int)
    requires
        0 <= i <= j <= s.len(),
        forall|t: int| i <= t < j ==> is_digit(#[trigger] s[t]),
        j == s.len() || !is_digit(s[j]),
    ensures
        run_len(s, i) == j - i,
    decreases j - i,
{
    if i < j {
        lemma_run_len_exact(s, i + 1, j);
    }
}

proof fn lemma_find_rate_skip(s: Seq<char>, p: int, q: int)
    requires
        0 <= p <= q <= s.len(),
        forall|t: int| p <= t < q ==> #[trigger] rate_at(s, t) is None,
    ensures
        find_rate_from(s, p) == find_rate_from(s, q),
    decreases q - p,
{
    if p < q {
        lemma_find_rate_skip(s, p + 1, q);
    }
}

proof fn lemma_digits_val_congruence(a: Seq<char>, b: Seq<char>, i: int, j: int, n: int)
    requires
        0 <= n,
        0 <= i,
        i + n <= a.len(),
        0 <= j,
        j + n <= b.len(),
        forall|u: int| i <= u < i + n ==> #[trigger] a[u] == b[u - i + j],
    ensures
        digits_val(a, i, n) == digits_val(b, j, n),
    decreases n,
{
    if n > 0 {
        lemma_digits_val_congruence(a, b, i, j, n - 1);
        assert(a[i + (n - 1)] == b[j + (n - 1)]);
    }
}

/// Decimal rendering is faithful: the digits of `spec_dec(n)` are
/// digits, and reading them back as a number gives `n`.
proof fn lemma_dec_value(n: int)
    requires
        0 <= n,
    ensures
        spec_dec(n).len() >= 1,
        forall|t: int| 0 <= t < spec_dec(n).len() ==> is_digit(#[trigger] spec_dec(n)[t]),
        digits_val(spec_dec(n), 0, spec_dec(n).len() as int) == n,
    decreases n,
{
    let d = spec_dec(n);
    if n < 10 {
        assert(d == seq![digit_char(n)]);
        assert(is_digit(d[0]));
        assert(digits_val(d, 0, 0) == 0);
        assert(digits_val(d, 0, 1) == digits_val(d, 0, 0) * 10 + (d[0] as u32 - 48));
    } else {
        lemma_dec_value(n / 10);
        let d0 = spec_dec(n / 10);
        assert(d == d0 + seq![digit_char(n % 10)]);
        let len = d.len() as int;
        assert forall|t: int| 0 <= t < len implies is_digit(#[trigger] d[t]) by {
            if t < len - 1 {
                assert(d[t] == d0[t]);
            } else {
                assert(d[t] == digit_char(n % 10));
            }
        }
        lemma_digits_val_congruence(d, d0, 0, 0, len - 1);
        assert(d[len - 1] == digit_char(n % 10));
        assert(digits_val(d, 0, len) == digits_val(d, 0, len - 1) * 10 + (d[len - 1] as u32
            - 48));
        vstd::arithmetic::div_mod::lemma_fundamental_div_mod(n, 10);
    }
}

/// A rate of four digits renders as four characters, one of five as
/// five.
proof fn lemma_dec_len(n: int)
    requires
        1000 <= n <= 99999,
    ensures
        n <= 9999 ==> spec_dec(n).len() == 4,
        n >= 10000 ==> spec_dec(n).len() == 5,
{
    if n <= 9999 {
        assert(spec_dec(n).len() == spec_dec(n / 10).len() + 1);
        assert(spec_dec(n / 10).len() == spec_dec(n / 10 / 10).len() + 1);
        assert(spec_dec(n / 10 / 10).len() == spec_dec(n / 10 / 10 / 10).len() + 1);
        assert(spec_dec(n / 10 / 10 / 10).len() == 1);
    } else {
        assert(spec_dec(n).len() == spec_dec(n / 10).len() + 1);
        assert(spec_dec(n / 10).len() == spec_dec(n / 10 / 10).len() + 1);
        assert(spec_dec(n / 10 / 10).len() == spec_dec(n / 10 / 10 / 10).len() + 1);
        assert(spec_dec(n / 10 / 10 / 10).len() == spec_dec(n / 10 / 10 / 10 / 10).len() + 1);
        assert(spec_dec(n / 10 / 10 / 10 / 10).len() == 1);
    }
}

/// Round trip of the persisted selection: whatever the allowed list, the
/// canonical config text always reads back as the very rate that was
/// written into it.
pub proof fn lemma_conf_text_round_trip(rate: u32, allowed: Seq<u32>)
    requires
        1000 <= rate <= 99999,
    ensures
        find_rate_from(spec_conf_text(rate, allowed), 0) == Some(rate),
{
    let lit1 = "context.properties = {\n    default.clock.rate          = "@;
    let lit2 = "\n    default.clock.allowed-rates = [ "@;
    let key = rate_key();
    let d = spec_dec(rate as int);
    let s = spec_conf_text(rate, allowed);
    reveal_strlit("context.properties = {\n    default.clock.rate          = ");
    reveal_strlit("\n    default.clock.allowed-rates = [ ");
    reveal_strlit("default.clock.rate");
    lemma_dec_value(rate as int);
    lemma_dec_len(rate as int);
    let dl = d.len() as int;
    assert(lit1.len() == 57);
    assert(key.len() == 18);
    assert(4 <= dl <= 5);
    assert forall|t: int| 0 <= t < 57 implies s[t] == lit1[t] by {}
    assert forall|t: int| 0 <= t < dl implies s[57 + t] == d[t] by {}
    assert(s[57 + dl] == lit2[0]);
    assert(s.len() >= 57 + dl + 1);
    // The key stands at position 27 and nowhere earlier.
    assert(s.subrange(27, 45) =~= key) by {
        assert forall|t: int| 0 <= t < 18 implies s.subrange(27, 45)[t] == key[t] by {
            assert(s[27 + t] == lit1[27 + t]);
        }
    }
    assert forall|p: int| 0 <= p < 27 implies #[trigger] rate_at(s, p) is None by {
        if p + 18 <= s.len() && s.subrange(p, p + 18) == key {
            assert(s.subrange(p, p + 18)[0] == s[p]);
            assert(s[p] == lit1[p]);
            assert(key[0] == 'd');
            assert(false);
        }
    }
    lemma_find_rate_skip(s, 0, 27);
    // Whitespace runs: ten spaces before `=`, one space after it.
    assert forall|t: int| 45 <= t < 55 implies is_space(#[trigger] s[t]) by {
        assert(s[t] == lit1[t]);
    }
    assert(s[55] == '=' && !is_space(s[55]));
    lemma_skip_ws_to(s, 45, 55);
    assert(s[56] == ' ' && is_space(s[56]));
    assert(s[57] == d[0] && is_digit(d[0]));
    assert(!is_space(s[57]));
    lemma_skip_ws_to(s, 56, 57);
    assert(s[57] != '"');
    // The digit run is exactly the rendered rate.
    assert forall|t: int| 57 <= t < 57 + dl implies is_digit(#[trigger] s[t]) by {
        assert(s[t] == d[t - 57]);
    }
    assert(s[57 + dl] == '\n' && !is_digit(s[57 + dl]));
    lemma_run_len_exact(s, 57, 57 + dl);
    lemma_digits_val_congruence(s, d, 57, 0, dl);
    assert(rate_at(s, 27) == Some(rate));
    assert(find_rate_from(s, 27) == rate_at(s, 27));
}

} // verus!
