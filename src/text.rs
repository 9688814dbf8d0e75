//! Small verified operations on text.

use vstd::prelude::*;

verus! {

/// Character-wise equality of two strings.
pub fn str_eq(a: &str, b: &str) -> (r: bool)
    ensures
        r == (a@ == b@),
{
    let n: usize = a.unicode_len();
    if n != b.unicode_len() {
        return false;
    }
    let mut i: usize = 0;
    while i < n
        invariant
            n == a@.len(),
            n == b@.len(),
            i <= n,
            a@.subrange(0, i as int) == b@.subrange(0, i as int),
        decreases n - i,
    {
        if a.get_char(i) != b.get_char(i) {
            return false;
        }
        assert(a@.subrange(0, i + 1) =~= a@.subrange(0, i as int).push(a@[i as int]));
        assert(b@.subrange(0, i + 1) =~= b@.subrange(0, i as int).push(b@[i as int]));
        i = i + 1;
    }
    assert(a@ =~= a@.subrange(0, n as int));
    assert(b@ =~= b@.subrange(0, n as int));
    true
}

} // verus!

verus! {

/// The whitespace that separates words: space, tab, and the ASCII line
/// and page breaks.
pub open spec fn is_ws(c: char) -> bool {
    c == ' ' || c == '\t' || c == '\n' || c == '\r' || c == '\x0B' || c == '\x0C'
}

pub fn is_ws_char(c: char) -> (r: bool)
    ensures
        r == is_ws(c),
{
    c == ' ' || c == '\t' || c == '\n' || c == '\r' || c == '\x0B' || c == '\x0C'
}

/// After reading `s`: the words completed so far and the word in progress.
pub open spec fn split_scan(s: Seq<char>) -> (Seq<Seq<char>>, Seq<char>)
    decreases s.len(),
{
    if s.len() == 0 {
        (Seq::empty(), Seq::empty())
    } else {
        let (ws, cur) = split_scan(s.drop_last());
        let c = s.last();
        if is_ws(c) {
            if cur.len() > 0 {
                (ws.push(cur), Seq::empty())
            } else {
                (ws, cur)
            }
        } else {
            (ws, cur.push(c))
        }
    }
}

/// The maximal runs of non-whitespace characters of `s`, in order.
pub open spec fn words(s: Seq<char>) -> Seq<Seq<char>> {
    let (ws, cur) = split_scan(s);
    if cur.len() > 0 {
        ws.push(cur)
    } else {
        ws
    }
}

/// Words joined by single spaces.
pub open spec fn join(ws: Seq<Seq<char>>) -> Seq<char>
    decreases ws.len(),
{
    if ws.len() == 0 {
        Seq::empty()
    } else if ws.len() == 1 {
        ws[0]
    } else {
        join(ws.drop_last()) + seq![' '] + ws.last()
    }
}

pub open spec fn views(v: Seq<String>) -> Seq<Seq<char>> {
    v.map_values(|w: String| w@)
}

/// The words of `s`.
pub fn split_words(s: &str) -> (r: Vec<String>)
    ensures
        views(r@) == words(s@),
{
    let n: usize = s.unicode_len();
    let mut out: Vec<String> = Vec::new();
    let mut start: usize = 0;
    let mut i: usize = 0;
    while i < n
        invariant
            n == s@.len(),
            start <= i <= n,
            (views(out@), s@.subrange(start as int, i as int)) == split_scan(s@.subrange(0, i as int)),
        decreases n - i,
    {
        let c = s.get_char(i);
        assert(s@.subrange(0, i + 1).drop_last() =~= s@.subrange(0, i as int));
        assert(s@.subrange(0, i + 1).last() == c);
        if is_ws_char(c) {
            if i > start {
                let w = String::from_str(s.substring_char(start, i));
                out.push(w);
                assert(views(out@) =~= views(out@.drop_last()).push(w@));
            } else {
                assert(s@.subrange(start as int, i as int).len() == 0);
            }
            start = i + 1;
            assert(s@.subrange(start as int, i + 1) =~= Seq::<char>::empty());
        } else {
            assert(s@.subrange(start as int, i + 1) =~= s@.subrange(start as int, i as int).push(c));
        }
        i = i + 1;
    }
    assert(s@.subrange(0, n as int) =~= s@);
    if n > start {
        let w = String::from_str(s.substring_char(start, n));
        out.push(w);
        assert(views(out@) =~= views(out@.drop_last()).push(w@));
    }
    out
}

/// Words `from..to` of `ws`, joined by single spaces.
pub fn join_words(ws: &Vec<String>, from: usize, to: usize) -> (r: String)
    requires
        from <= to <= ws@.len(),
    ensures
        r@ == join(views(ws@).subrange(from as int, to as int)),
{
    let mut out = String::new();
    let mut k: usize = from;
    while k < to
        invariant
            from <= k <= to <= ws@.len(),
            out@ == join(views(ws@).subrange(from as int, k as int)),
        decreases to - k,
    {
        let ghost pre = views(ws@).subrange(from as int, k as int);
        let ghost next = views(ws@).subrange(from as int, k + 1);
        assert(next.drop_last() =~= pre);
        assert(next.last() == ws@[k as int]@);
        if k > from {
            out.append(" ");
            proof {
                reveal_strlit(" ");
            }
        } else {
            assert(pre.len() == 0);
        }
        out.append(ws[k].as_str());
        proof {
            if k > from {
                assert(out@ =~= join(pre) + seq![' '] + ws@[k as int]@);
            } else {
                assert(out@ =~= ws@[k as int]@);
                assert(next.len() == 1);
            }
        }
        k = k + 1;
    }
    out
}

/// Scanning a decimal numeral: whether it is well-formed so far, whether a
/// point was seen, how many digits, and its value as `n / d` where `d` is
/// ten to the number of digits after the point. Well-formed only while
/// `n` and `d` fit a rate.
pub struct DecimalScan {
    pub ok: bool,
    pub point: bool,
    pub digits: nat,
    pub n: int,
    pub d: int,
}

pub open spec fn digit_value(c: char) -> int {
    (c as int) - ('0' as int)
}

pub open spec fn is_digit(c: char) -> bool {
    '0' <= c && c <= '9'
}

pub open spec fn decimal_scan(s: Seq<char>) -> DecimalScan
    decreases s.len(),
{
    if s.len() == 0 {
        DecimalScan { ok: true, point: false, digits: 0, n: 0, d: 1 }
    } else {
        let p = decimal_scan(s.drop_last());
        let c = s.last();
        if !p.ok {
            p
        } else if is_digit(c) {
            let n = p.n * 10 + digit_value(c);
            let d = if p.point {
                p.d * 10
            } else {
                p.d
            };
            if n <= crate::rate::RATE_LIMIT as int && d <= crate::rate::RATE_LIMIT as int {
                DecimalScan { ok: true, point: p.point, digits: p.digits + 1, n, d }
            } else {
                DecimalScan { ok: false, ..p }
            }
        } else if c == '.' && !p.point {
            DecimalScan { point: true, ..p }
        } else {
            DecimalScan { ok: false, ..p }
        }
    }
}

/// The value of a decimal numeral (digits with at most one point, at least
/// one digit), where its digits and scale fit a rate.
pub open spec fn decimal(s: Seq<char>) -> Option<crate::rate::Frac> {
    let st = decimal_scan(s);
    if st.ok && st.digits > 0 {
        Some(crate::rate::Frac { n: st.n, d: st.d })
    } else {
        None
    }
}

proof fn lemma_scan_bounds(s: Seq<char>)
    ensures
        0 <= decimal_scan(s).n <= crate::rate::RATE_LIMIT as int,
        1 <= decimal_scan(s).d <= crate::rate::RATE_LIMIT as int,
    decreases s.len(),
{
    if s.len() > 0 {
        lemma_scan_bounds(s.drop_last());
    }
}

/// Parses a decimal numeral exactly.
pub fn parse_decimal(s: &str) -> (r: Option<crate::rate::Rate>)
    ensures
        (r is Some) == (decimal(s@) is Some),
        (r is Some) ==> r->0.wf() && r->0@.eqv(decimal(s@)->0),
{
    match scan_decimal(s) {
        Some((n, d)) => Some(crate::rate::Rate::ratio(n, d)),
        None => None,
    }
}

/// The numerator and denominator of a decimal numeral, as written.
fn scan_decimal(s: &str) -> (r: Option<(i64, i64)>)
    ensures
        (r is Some) == (decimal(s@) is Some),
        (r is Some) ==> ({
            let (n, d) = r->0;
            decimal(s@) == Some(crate::rate::Frac { n: n as int, d: d as int }) && n >= 0 && d >= 1
        }),
{
    let len: usize = s.unicode_len();
    let mut n: i64 = 0;
    let mut d: i64 = 1;
    let mut point = false;
    let mut digits: usize = 0;
    let mut i: usize = 0;
    while i < len
        invariant
            len == s@.len(),
            i <= len,
            digits <= i,
            n >= 0,
            d >= 1,
            ({
                let st = decimal_scan(s@.subrange(0, i as int));
                st.ok && st.point == point && st.digits == digits && st.n == n && st.d == d
            }),
        decreases len - i,
    {
        let c = s.get_char(i);
        let ghost pre = s@.subrange(0, i as int);
        assert(s@.subrange(0, i + 1).drop_last() =~= pre);
        assert(s@.subrange(0, i + 1).last() == c);
        proof {
            lemma_scan_bounds(pre);
        }
        if '0' <= c && c <= '9' {
            let v: i64 = (c as u32 - '0' as u32) as i64;
            if n > (crate::rate::RATE_LIMIT - v) / 10 {
                proof {
                    assert(n * 10 + v > crate::rate::RATE_LIMIT) by (nonlinear_arith)
                        requires n > (crate::rate::RATE_LIMIT - v) / 10, 0 <= v <= 9;
                    lemma_scan_stays_failed(s@, i as int + 1);
                }
                return None;
            }
            if point && d > crate::rate::RATE_LIMIT / 10 {
                proof {
                    assert(d * 10 > crate::rate::RATE_LIMIT) by (nonlinear_arith)
                        requires d > crate::rate::RATE_LIMIT / 10;
                    lemma_scan_stays_failed(s@, i as int + 1);
                }
                return None;
            }
            n = n * 10 + v;
            if point {
                d = d * 10;
            }
            digits = digits + 1;
        } else if c == '.' && !point {
            point = true;
        } else {
            proof {
                lemma_scan_stays_failed(s@, i as int + 1);
            }
            return None;
        }
        i = i + 1;
    }
    assert(s@.subrange(0, len as int) =~= s@);
    if digits == 0 {
        return None;
    }
    Some((n, d))
}

/// Once the scan fails it stays failed.
proof fn lemma_scan_stays_failed(s: Seq<char>, i: int)
    requires
        0 <= i <= s.len(),
        !decimal_scan(s.subrange(0, i)).ok,
    ensures
        !decimal_scan(s).ok,
    decreases s.len() - i,
{
    if i < s.len() {
        assert(s.subrange(0, i + 1).drop_last() =~= s.subrange(0, i));
        lemma_scan_stays_failed(s, i + 1);
    } else {
        assert(s.subrange(0, i) =~= s);
    }
}

} // verus!

verus! {

/// The text starts with `#`.
pub fn is_comment_start(s: &str) -> (r: bool)
    ensures
        r == (s@.len() > 0 && s@[0] == '#'),
{
    s.unicode_len() > 0 && s.get_char(0) == '#'
}

} // verus!

verus! {

/// A leading sign, if any, and the rest: `true` for a minus.
pub open spec fn sign_split(s: Seq<char>) -> (bool, Seq<char>) {
    if s.len() > 0 && s[0] == '-' {
        (true, s.drop_first())
    } else if s.len() > 0 && s[0] == '+' {
        (false, s.drop_first())
    } else {
        (false, s)
    }
}

pub open spec fn pow10(e: nat) -> int
    decreases e,
{
    if e == 0 {
        1
    } else {
        10 * pow10((e - 1) as nat)
    }
}

/// Index of the first `e` or `E`, or -1.
pub open spec fn exp_pos(s: Seq<char>) -> int
    decreases s.len(),
{
    if s.len() == 0 {
        -1
    } else if exp_pos(s.drop_last()) >= 0 {
        exp_pos(s.drop_last())
    } else if s.last() == 'e' || s.last() == 'E' {
        s.len() - 1
    } else {
        -1
    }
}

pub open spec fn all_digits(s: Seq<char>) -> bool {
    s.len() > 0 && forall|k: int| 0 <= k < s.len() ==> is_digit(#[trigger] s[k])
}

/// A number written as Rust writes a float, but for infinities and NaN: an
/// optional sign, a decimal numeral, and an optional exponent (`e` or `E`,
/// an optional sign, digits); its exact value, where that and the scale
/// `10^exponent` fit a rate.
pub open spec fn number(s: Seq<char>) -> Option<crate::rate::Frac> {
    let i = exp_pos(s);
    let mant = if i < 0 {
        s
    } else {
        s.subrange(0, i)
    };
    let (neg, body) = sign_split(mant);
    match decimal(body) {
        None => None,
        Some(m) => {
            let m2 = if neg {
                m.neg()
            } else {
                m
            };
            if i < 0 {
                Some(m2)
            } else {
                let (eneg, ebody) = sign_split(s.subrange(i + 1, s.len() as int));
                if !all_digits(ebody) || decimal(ebody) is None {
                    None
                } else {
                    let e = decimal(ebody)->0.n;
                    if e > 18 {
                        None
                    } else if !eneg {
                        if m2.n * pow10(e as nat) <= crate::rate::RATE_LIMIT as int && -(
                        crate::rate::RATE_LIMIT as int) <= m2.n * pow10(e as nat) {
                            Some(crate::rate::Frac { n: m2.n * pow10(e as nat), d: m2.d })
                        } else {
                            None
                        }
                    } else {
                        if m2.d * pow10(e as nat) <= crate::rate::RATE_LIMIT as int {
                            Some(crate::rate::Frac { n: m2.n, d: m2.d * pow10(e as nat) })
                        } else {
                            None
                        }
                    }
                }
            }
        },
    }
}

fn find_exp(s: &str) -> (r: usize)
    ensures
        r <= s@.len(),
        exp_pos(s@) == (if r == s@.len() { -1 } else { r as int }),
{
    let n: usize = s.unicode_len();
    let mut k: usize = 0;
    while k < n
        invariant
            n == s@.len(),
            k <= n,
            exp_pos(s@.subrange(0, k as int)) == -1,
        decreases n - k,
    {
        let c = s.get_char(k);
        assert(s@.subrange(0, k + 1).drop_last() =~= s@.subrange(0, k as int));
        if c == 'e' || c == 'E' {
            proof {
                lemma_exp_pos_prefix(s@, k as int);
            }
            return k;
        }
        k = k + 1;
    }
    assert(s@.subrange(0, n as int) =~= s@);
    n
}

proof fn lemma_exp_pos_prefix(s: Seq<char>, k: int)
    requires
        0 <= k < s.len(),
        exp_pos(s.subrange(0, k)) == -1,
        s[k] == 'e' || s[k] == 'E',
    ensures
        exp_pos(s) == k,
    decreases s.len() - k,
{
    if k == s.len() - 1 {
        assert(s.drop_last() =~= s.subrange(0, k));
    } else {
        assert(s.drop_last().subrange(0, k) =~= s.subrange(0, k));
        lemma_exp_pos_prefix(s.drop_last(), k);
    }
}

fn digits_only(s: &str) -> (r: bool)
    ensures
        r == all_digits(s@),
{
    let n: usize = s.unicode_len();
    if n == 0 {
        return false;
    }
    let mut k: usize = 0;
    while k < n
        invariant
            n == s@.len(),
            k <= n,
            forall|t: int| 0 <= t < k ==> is_digit(#[trigger] s@[t]),
        decreases n - k,
    {
        let c = s.get_char(k);
        if !('0' <= c && c <= '9') {
            return false;
        }
        k = k + 1;
    }
    true
}

/// The sign of the text and the text after it.
fn split_sign(s: &str) -> (r: (bool, &str))
    ensures
        (r.0, r.1@) == sign_split(s@),
{
    let n: usize = s.unicode_len();
    if n > 0 {
        let c = s.get_char(0);
        if c == '-' || c == '+' {
            let rest = s.substring_char(1, n);
            assert(rest@ =~= s@.drop_first());
            return (c == '-', rest);
        }
    }
    (false, s)
}

/// Parses a number exactly: an optional sign, a decimal numeral and an
/// optional exponent.
pub fn parse_number(s: &str) -> (r: Option<crate::rate::Rate>)
    ensures
        (r is Some) == (number(s@) is Some),
        (r is Some) ==> r->0.wf() && r->0@.eqv(number(s@)->0),
{
    let len: usize = s.unicode_len();
    let i = find_exp(s);
    let mant = s.substring_char(0, i);
    proof {
        if i == len {
            assert(mant@ =~= s@);
        }
    }
    let (neg, body) = split_sign(mant);
    let (n, d) = match scan_decimal(body) {
        Some(nd) => nd,
        None => {
            return None;
        },
    };
    let n2: i64 = if neg { -n } else { n };
    if i == len {
        return Some(crate::rate::Rate::ratio(n2, d));
    }
    let tail = s.substring_char(i + 1, len);
    let (eneg, ebody) = split_sign(tail);
    if !digits_only(ebody) {
        return None;
    }
    let (e, _) = match scan_decimal(ebody) {
        Some(ed) => ed,
        None => {
            return None;
        },
    };
    if e > 18 {
        return None;
    }
    let mut p: i64 = 1;
    let mut t: i64 = 0;
    while t < e
        invariant
            0 <= t <= e <= 18,
            p == pow10(t as nat),
            p <= 1_000_000_000_000_000_000,
        decreases e - t,
    {
        proof {
            lemma_pow10_bound((t + 1) as nat);
            assert(pow10((t + 1) as nat) == 10 * pow10(t as nat));
        }
        p = p * 10;
        t = t + 1;
    }
    proof {
        lemma_pow10_bound(e as nat);
        assert(p == pow10(e as nat));
        assert(n2 * p <= crate::rate::RATE_LIMIT as int * 1_000_000_000_000_000_000) by (nonlinear_arith)
            requires
                -(crate::rate::RATE_LIMIT as int) <= n2 <= crate::rate::RATE_LIMIT as int,
                1 <= p <= 1_000_000_000_000_000_000,
        ;
        assert(n2 * p >= -(crate::rate::RATE_LIMIT as int) * 1_000_000_000_000_000_000) by (nonlinear_arith)
            requires
                -(crate::rate::RATE_LIMIT as int) <= n2 <= crate::rate::RATE_LIMIT as int,
                1 <= p <= 1_000_000_000_000_000_000,
        ;
        assert(1 <= d * p <= crate::rate::RATE_LIMIT as int * 1_000_000_000_000_000_000) by (nonlinear_arith)
            requires 1 <= d <= crate::rate::RATE_LIMIT as int, 1 <= p <= 1_000_000_000_000_000_000;
    }
    if !eneg {
        let prod: i128 = n2 as i128 * p as i128;
        if prod > crate::rate::RATE_LIMIT as i128 || prod < -(crate::rate::RATE_LIMIT as i128) {
            return None;
        }
        Some(crate::rate::Rate::ratio(prod as i64, d))
    } else {
        let den: i128 = d as i128 * p as i128;
        if den > crate::rate::RATE_LIMIT as i128 {
            return None;
        }
        Some(crate::rate::Rate::ratio(n2, den as i64))
    }
}

proof fn lemma_pow10_bound(t: nat)
    requires
        t <= 18,
    ensures
        1 <= pow10(t) <= 1_000_000_000_000_000_000,
{
    lemma_pow10_pos(t);
    lemma_pow10_mono(t, 18);
    reveal_with_fuel(pow10, 19);
    assert(pow10(18) == 1_000_000_000_000_000_000);
}

proof fn lemma_pow10_mono(a: nat, b: nat)
    requires
        a <= b,
    ensures
        pow10(a) <= pow10(b),
    decreases b,
{
    if a < b {
        lemma_pow10_mono(a, (b - 1) as nat);
        lemma_pow10_pos((b - 1) as nat);
    }
}

proof fn lemma_pow10_pos(t: nat)
    ensures
        pow10(t) >= 1,
    decreases t,
{
    if t > 0 {
        lemma_pow10_pos((t - 1) as nat);
    }
}

} // verus!
