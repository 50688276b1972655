use vstd::prelude::*;
use vstd::string::*;

verus! {

/// Fixed-point values carry this many decimal places: a coordinate or a cutoff
/// of `v` units stands for `v / 10^7` Ångström.
pub const FRACTION_DIGITS: usize = 7;

/// The largest magnitude, in units, that a parsed decimal may have.
pub const MAGNITUDE_LIMIT: u64 = 100_000_000_000_000_000;

pub open spec fn is_digit(c: char) -> bool {
    '0' <= c && c <= '9'
}

pub open spec fn digit_value(c: char) -> int {
    c as int - '0' as int
}

pub open spec fn all_digits(s: Seq<char>) -> bool {
    forall|i: int| 0 <= i < s.len() ==> is_digit(#[trigger] s[i])
}

/// The number that the decimal digits `s` write.
pub open spec fn digits_value(s: Seq<char>) -> int
    decreases s.len(),
{
    if s.len() == 0 {
        0
    } else {
        digits_value(s.drop_last()) * 10 + digit_value(s.last())
    }
}

pub open spec fn pow10(n: nat) -> int
    decreases n,
{
    if n == 0 {
        1
    } else {
        10 * pow10((n - 1) as nat)
    }
}

/// Length of the sign (`+` or `-`) that opens `s`, if any.
pub open spec fn sign_len(s: Seq<char>) -> int {
    if s.len() > 0 && (s[0] == '+' || s[0] == '-') {
        1
    } else {
        0
    }
}

pub open spec fn negative(s: Seq<char>) -> bool {
    s.len() > 0 && s[0] == '-'
}

pub open spec fn signed(s: Seq<char>, v: int) -> int {
    if negative(s) {
        -v
    } else {
        v
    }
}

/// An integer: an optional sign, then one or more digits.
pub open spec fn integer_of(s: Seq<char>) -> Option<int> {
    let b = s.skip(sign_len(s));
    if b.len() > 0 && all_digits(b) {
        Some(signed(s, digits_value(b)))
    } else {
        None
    }
}

/// Where `b` is digits with at most one decimal point among them, the digits
/// before the point and those after it.
pub open spec fn point_split(b: Seq<char>) -> Option<(Seq<char>, Seq<char>)> {
    if all_digits(b) {
        Some((b, Seq::empty()))
    } else if exists|p: int|
        0 <= p < b.len() && b[p] == '.' && all_digits(b.take(p)) && all_digits(b.skip(p + 1))
    {
        let p = choose|p: int|
            0 <= p < b.len() && b[p] == '.' && all_digits(b.take(p)) && all_digits(b.skip(p + 1));
        Some((b.take(p), b.skip(p + 1)))
    } else {
        None
    }
}

/// A decimal number in positional notation (an optional sign, digits, an
/// optional point and at most seven digits after it, at least one digit in
/// all), as a count of units of `10^-7`.
pub open spec fn decimal_of(s: Seq<char>) -> Option<int> {
    match point_split(s.skip(sign_len(s))) {
        None => None,
        Some((ip, fp)) => {
            if ip.len() + fp.len() == 0 || fp.len() > FRACTION_DIGITS {
                None
            } else {
                Some(
                    signed(s, digits_value(ip + fp) * pow10((FRACTION_DIGITS - fp.len()) as nat)),
                )
            }
        },
    }
}

pub proof fn lemma_pow10_positive(n: nat)
    ensures
        pow10(n) >= 1,
    decreases n,
{
    if n > 0 {
        lemma_pow10_positive((n - 1) as nat);
    }
}

proof fn lemma_digits_nonneg(s: Seq<char>)
    requires
        all_digits(s),
    ensures
        0 <= digits_value(s) < pow10(s.len()),
    decreases s.len(),
{
    if s.len() > 0 {
        let d = s.drop_last();
        assert(is_digit(s[s.len() - 1]));
        lemma_digits_nonneg(d);
    }
}

proof fn lemma_digits_grow(a: Seq<char>, b: Seq<char>)
    requires
        all_digits(a),
        all_digits(b),
    ensures
        digits_value(a) <= digits_value(a + b),
    decreases b.len(),
{
    if b.len() > 0 {
        let c = a + b;
        assert(c.drop_last() =~= a + b.drop_last());
        assert(is_digit(b[b.len() - 1]));
        lemma_digits_grow(a, b.drop_last());
        lemma_digits_nonneg(a + b.drop_last());
    }
}

fn digit(c: char) -> (r: Option<u64>)
    ensures
        r is Some <==> is_digit(c),
        r matches Some(d) ==> d == digit_value(c) && d <= 9,
{
    if '0' <= c && c <= '9' {
        Some(c as u64 - '0' as u64)
    } else {
        None
    }
}

/// Extends `acc`, the value of the digits `prev`, by the digits of `s` in
/// columns `lo .. hi`; `None` where the result would pass the limit.
fn push_digits(s: &str, lo: usize, hi: usize, acc: u64, Ghost(prev): Ghost<Seq<char>>) -> (r:
    Option<u64>)
    requires
        lo <= hi <= s@.len(),
        all_digits(prev),
        all_digits(s@.subrange(lo as int, hi as int)),
        acc == digits_value(prev),
        acc <= MAGNITUDE_LIMIT,
    ensures
        match r {
            Some(v) => v == digits_value(prev + s@.subrange(lo as int, hi as int)) && v
                <= MAGNITUDE_LIMIT,
            None => digits_value(prev + s@.subrange(lo as int, hi as int)) > MAGNITUDE_LIMIT,
        },
{
    let ghost sub = s@.subrange(lo as int, hi as int);
    let mut v: u64 = acc;
    let mut i: usize = lo;
    while i < hi
        invariant
            lo <= i <= hi <= s@.len(),
            sub == s@.subrange(lo as int, hi as int),
            all_digits(prev),
            all_digits(sub),
            v == digits_value(prev + sub.take(i - lo)),
            v <= MAGNITUDE_LIMIT,
        decreases hi - i,
    {
        let c = s.get_char(i);
        assert(c == sub[i - lo]);
        let d = match digit(c) {
            Some(d) => d,
            None => {
                return None;
            },
        };
        let ghost before = prev + sub.take(i - lo);
        let ghost after = prev + sub.take(i - lo + 1);
        assert(after.drop_last() =~= before);
        if v > (MAGNITUDE_LIMIT - d) / 10 {
            proof {
                assert(after + sub.skip(i - lo + 1) =~= prev + sub);
                lemma_digits_grow(after, sub.skip(i - lo + 1));
            }
            return None;
        }
        v = v * 10 + d;
        i = i + 1;
    }
    assert(sub.take(hi - lo) =~= sub);
    Some(v)
}

/// Reads an integer as `str::parse::<i32>` does: `None` where the text is no
/// integer or its value lies outside the range of `i32`.
pub fn parse_integer(s: &str) -> (r: Option<i32>)
    ensures
        match r {
            Some(v) => integer_of(s@) == Some(v as int),
            None => match integer_of(s@) {
                None => true,
                Some(v) => v < i32::MIN || v > i32::MAX,
            },
        },
{
    let n = s.unicode_len();
    let st: usize = if n > 0 && (s.get_char(0) == '+' || s.get_char(0) == '-') {
        1
    } else {
        0
    };
    let ghost b = s@.skip(st as int);
    assert(sign_len(s@) == st);
    assert(b =~= s@.subrange(st as int, n as int));
    if st == n {
        return None;
    }
    let mut i: usize = st;
    while i < n
        invariant
            st <= i <= n == s@.len(),
            b == s@.skip(st as int),
            st == sign_len(s@),
            forall|t: int| st <= t < i ==> is_digit(#[trigger] s@[t]),
        decreases n - i,
    {
        if !('0' <= s.get_char(i) && s.get_char(i) <= '9') {
            assert(!is_digit(b[i - st]));
            assert(!all_digits(b));
            return None;
        }
        i = i + 1;
    }
    assert(all_digits(b)) by {
        assert forall|t: int| 0 <= t < b.len() implies is_digit(#[trigger] b[t]) by {
            assert(b[t] == s@[t + st]);
        }
    }
    proof {
        lemma_digits_nonneg(b);
        assert(Seq::<char>::empty() + s@.subrange(st as int, n as int) =~= b);
    }
    let v = match push_digits(s, st, n, 0, Ghost(Seq::empty())) {
        Some(v) => v,
        None => {
            return None;
        },
    };
    assert(integer_of(s@) == Some(signed(s@, v as int)));
    if n > 0 && s.get_char(0) == '-' {
        if v > 2_147_483_648 {
            return None;
        }
        Some((0 - v as i64) as i32)
    } else {
        if v > 2_147_483_647 {
            return None;
        }
        Some(v as i32)
    }
}

proof fn lemma_pow10_mono(a: nat, b: nat)
    requires
        a <= b,
    ensures
        pow10(a) <= pow10(b),
    decreases b,
{
    if a < b {
        lemma_pow10_mono(a, (b - 1) as nat);
        lemma_pow10_positive((b - 1) as nat);
    }
}


proof fn lemma_pow10_add(a: nat, b: nat)
    ensures
        pow10(a + b) == pow10(a) * pow10(b),
    decreases b,
{
    if b > 0 {
        lemma_pow10_add(a, (b - 1) as nat);
        assert(pow10(a + b) == 10 * pow10((a + b - 1) as nat));
        assert(pow10(a) * (10 * pow10((b - 1) as nat)) == 10 * (pow10(a) * pow10((b - 1) as nat)))
            by (nonlinear_arith);
    }
}

/// Finds where the digits of `s` after column `st` split at a decimal point:
/// the point's column, or the length where there is none.
fn locate_point(s: &str, st: usize) -> (r: Option<usize>)
    requires
        st <= s@.len(),
    ensures
        r is None ==> point_split(s@.skip(st as int)) is None,
        r matches Some(p) ==> st <= p <= s@.len() && point_split(s@.skip(st as int)) == Some(
            (
                s@.subrange(st as int, p as int),
                s@.subrange(if p < s@.len() { p + 1 } else { p as int }, s@.len() as int),
            ),
        ),
{
    let n = s.unicode_len();
    let ghost b = s@.skip(st as int);
    let mut p: usize = st;
    while p < n && s.get_char(p) != '.'
        invariant
            st <= p <= n == s@.len(),
            forall|t: int| st <= t < p ==> #[trigger] s@[t] != '.',
        decreases n - p,
    {
        p = p + 1;
    }
    let mut i: usize = st;
    while i < p
        invariant
            st <= i <= p <= n == s@.len(),
            b == s@.skip(st as int),
            forall|t: int| st <= t < p ==> #[trigger] s@[t] != '.',
            p < n ==> s@[p as int] == '.',
            forall|t: int| st <= t < i ==> is_digit(#[trigger] s@[t]),
        decreases p - i,
    {
        if !('0' <= s.get_char(i) && s.get_char(i) <= '9') {
            proof {
                assert(!is_digit(b[i - st]));
                assert forall|q: int| 0 <= q < b.len() && b[q] == '.' implies !all_digits(
                    b.take(q),
                ) by {
                    assert(b[q] == s@[q + st]);
                    assert(b.take(q)[i - st] == b[i - st]);
                }
            }
            return None;
        }
        i = i + 1;
    }
    let fe: usize = if p < n {
        p + 1
    } else {
        n
    };
    let mut j: usize = fe;
    while j < n
        invariant
            st <= p <= fe <= j <= n == s@.len(),
            fe == (if p < n { p + 1 } else { n as int }),
            b == s@.skip(st as int),
            forall|t: int| st <= t < p ==> #[trigger] s@[t] != '.',
            p < n ==> s@[p as int] == '.',
            forall|t: int| fe <= t < j ==> is_digit(#[trigger] s@[t]),
        decreases n - j,
    {
        if !('0' <= s.get_char(j) && s.get_char(j) <= '9') {
            proof {
                assert(b[j - st] == s@[j as int]);
                assert(b[p - st] == '.');
                assert forall|q: int| 0 <= q < b.len() && b[q] == '.' implies !all_digits(
                    b.take(q),
                ) || !all_digits(b.skip(q + 1)) by {
                    assert(b[q] == s@[q + st]);
                    if q == p - st {
                        assert(b.skip(q + 1)[j - fe] == b[j - st]);
                    } else {
                        assert(b.take(q)[p - st] == b[p - st]);
                    }
                }
            }
            return None;
        }
        j = j + 1;
    }
    let ghost ip = s@.subrange(st as int, p as int);
    let ghost fp = s@.subrange(fe as int, n as int);
    proof {
        assert(all_digits(ip)) by {
            assert forall|t: int| 0 <= t < ip.len() implies is_digit(#[trigger] ip[t]) by {
                assert(ip[t] == s@[t + st]);
            }
        }
        assert(all_digits(fp)) by {
            assert forall|t: int| 0 <= t < fp.len() implies is_digit(#[trigger] fp[t]) by {
                assert(fp[t] == s@[t + fe]);
            }
        }
        if p == n {
            assert(b =~= ip);
            assert(fp =~= Seq::<char>::empty());
        } else {
            assert(b.take(p - st) =~= ip);
            assert(b.skip(p - st + 1) =~= fp);
            assert(b[p - st] == '.');
            assert(!all_digits(b));
            let q = choose|q: int|
                0 <= q < b.len() && b[q] == '.' && all_digits(b.take(q)) && all_digits(
                    b.skip(q + 1),
                );
            assert(b[q] == s@[q + st]);
            if q > p - st {
                assert(b.take(q)[p - st] == b[p - st]);
            }
            assert(q == p - st);
        }
    }
    Some(p)
}

/// `v`, the value `dv`, times `10^k`; `None` where that passes the limit.
fn scale_up(v: u64, k: usize, Ghost(dv): Ghost<int>) -> (r: Option<u64>)
    requires
        v == dv,
        v <= MAGNITUDE_LIMIT,
    ensures
        match r {
            Some(w) => w == dv * pow10(k as nat) && w <= MAGNITUDE_LIMIT,
            None => dv * pow10(k as nat) > MAGNITUDE_LIMIT,
        },
{
    let mut w: u64 = v;
    let mut t: usize = 0;
    while t < k
        invariant
            t <= k,
            dv >= 0,
            w == dv * pow10(t as nat),
            w <= MAGNITUDE_LIMIT,
        decreases k - t,
    {
        if w > MAGNITUDE_LIMIT / 10 {
            proof {
                let rest = (k - t - 1) as nat;
                lemma_pow10_add((t + 1) as nat, rest);
                assert((t + 1) as nat + rest == k);
                assert(pow10((t + 1) as nat) == 10 * pow10(t as nat));
                lemma_pow10_positive(rest);
                assert(dv * pow10(k as nat) == (w * 10) * pow10(rest)) by (nonlinear_arith)
                    requires
                        pow10(k as nat) == pow10((t + 1) as nat) * pow10(rest),
                        pow10((t + 1) as nat) == 10 * pow10(t as nat),
                        w == dv * pow10(t as nat),
                ;
                assert((w * 10) * pow10(rest) >= w * 10) by (nonlinear_arith)
                    requires
                        w >= 0,
                        pow10(rest) >= 1,
                ;
            }
            return None;
        }
        proof {
            assert(pow10((t + 1) as nat) == 10 * pow10(t as nat));
            assert(dv * pow10((t + 1) as nat) == 10 * (dv * pow10(t as nat))) by (nonlinear_arith)
                requires
                    pow10((t + 1) as nat) == 10 * pow10(t as nat),
            ;
        }
        w = w * 10;
        t = t + 1;
    }
    Some(w)
}

/// Reads a decimal number in positional notation as a count of units of
/// `10^-7` (see `decimal_of`); `None` where the text is no such number or its
/// magnitude passes `MAGNITUDE_LIMIT`.
pub fn parse_decimal(s: &str) -> (r: Option<i64>)
    ensures
        match r {
            Some(v) => decimal_of(s@) == Some(v as int) && -(MAGNITUDE_LIMIT as int) <= v
                <= MAGNITUDE_LIMIT,
            None => match decimal_of(s@) {
                None => true,
                Some(v) => v < -(MAGNITUDE_LIMIT as int) || v > MAGNITUDE_LIMIT,
            },
        },
{
    let n = s.unicode_len();
    let st: usize = if n > 0 && (s.get_char(0) == '+' || s.get_char(0) == '-') {
        1
    } else {
        0
    };
    assert(sign_len(s@) == st);
    let p = match locate_point(s, st) {
        Some(p) => p,
        None => {
            return None;
        },
    };
    let fe: usize = if p < n {
        p + 1
    } else {
        n
    };
    let ghost ip = s@.subrange(st as int, p as int);
    let ghost fp = s@.subrange(fe as int, n as int);
    let fl = n - fe;
    if (p - st) + fl == 0 || fl > FRACTION_DIGITS {
        return None;
    }
    let ghost dv = digits_value(ip + fp);
    let ghost scale = (FRACTION_DIGITS - fl) as nat;
    proof {
        assert(all_digits(ip + fp)) by {
            assert forall|t: int| 0 <= t < (ip + fp).len() implies is_digit(
                #[trigger] (ip + fp)[t],
            ) by {
                if t >= ip.len() {
                    assert(fp[t - ip.len()] == (ip + fp)[t]);
                }
            }
        }
        assert(Seq::<char>::empty() + ip =~= ip);
        lemma_digits_nonneg(ip + fp);
        lemma_pow10_positive(scale);
        assert(dv <= dv * pow10(scale)) by (nonlinear_arith)
            requires
                dv >= 0,
                pow10(scale) >= 1,
        ;
        assert(decimal_of(s@) == Some(signed(s@, dv * pow10(scale))));
    }
    let head = match push_digits(s, st, p, 0, Ghost(Seq::empty())) {
        Some(v) => v,
        None => {
            proof {
                lemma_digits_grow(ip, fp);
            }
            return None;
        },
    };
    let v = match push_digits(s, fe, n, head, Ghost(ip)) {
        Some(v) => v,
        None => {
            return None;
        },
    };
    let w = match scale_up(v, FRACTION_DIGITS - fl, Ghost(dv)) {
        Some(w) => w,
        None => {
            return None;
        },
    };
    let m = w as i64;
    if n > 0 && s.get_char(0) == '-' {
        Some(-m)
    } else {
        Some(m)
    }
}


/// An integer of at most four characters (the width of the residue number
/// column) lies in the range of `i32`.
pub proof fn lemma_short_integer(s: Seq<char>)
    requires
        s.len() <= 4,
    ensures
        integer_of(s) matches Some(v) ==> -10000 < v < 10000,
{
    let b = s.skip(sign_len(s));
    if integer_of(s) is Some {
        lemma_digits_nonneg(b);
        lemma_pow10_mono(b.len(), 4);
        reveal_with_fuel(pow10, 5);
    }
}

/// A decimal of at most eight characters (the width of a coordinate column)
/// stays below `10^15` units in magnitude.
pub proof fn lemma_short_decimal(s: Seq<char>)
    requires
        s.len() <= 8,
        decimal_of(s) is Some,
    ensures
        -pow10(15) < decimal_of(s)->0 < pow10(15),
{
    let b = s.skip(sign_len(s));
    let (ip, fp) = point_split(b)->0;
    assert(all_digits(ip + fp)) by {
        assert forall|t: int| 0 <= t < (ip + fp).len() implies is_digit(
                #[trigger] (ip + fp)[t],
            ) by {
            if t >= ip.len() {
                assert(fp[t - ip.len()] == (ip + fp)[t]);
            } else {
                assert(ip[t] == (ip + fp)[t]);
            }
        }
    }
    let k = (FRACTION_DIGITS - fp.len()) as nat;
    let dv = digits_value(ip + fp);
    lemma_digits_nonneg(ip + fp);
    lemma_pow10_add((ip + fp).len(), k);
    lemma_pow10_mono((ip + fp).len() + k, 15);
    lemma_pow10_positive(k);
    assert(dv * pow10(k) < pow10((ip + fp).len()) * pow10(k)) by (nonlinear_arith)
        requires
            0 <= dv < pow10((ip + fp).len()),
            pow10(k) >= 1,
    ;
    assert(0 <= dv * pow10(k)) by (nonlinear_arith)
        requires
            0 <= dv,
            pow10(k) >= 1,
    ;
}

} // verus!
