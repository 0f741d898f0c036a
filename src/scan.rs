//! Byte scanning over the text of a geometry: character classes, pattern
//! search and fixed-point numbers.
use vstd::prelude::*;
use crate::geometry::{value_ok, COORD_LIMIT, SCALE};

verus! {

/// Classes of bytes that the scanner skips over.
#[derive(Clone, Copy, Debug, PartialEq, Eq, Structural)]
pub enum CharClass {
    /// ASCII whitespace.
    Space,
    /// Anything but ASCII whitespace.
    Word,
    /// An ASCII decimal digit.
    Digit,
    /// Anything but a comma.
    Field,
}

pub open spec fn is_space(c: u8) -> bool {
    c == 32 || (9 <= c && c <= 13)
}

pub open spec fn is_digit(c: u8) -> bool {
    48 <= c && c <= 57
}

pub open spec fn in_class(c: u8, k: CharClass) -> bool {
    match k {
        CharClass::Space => is_space(c),
        CharClass::Word => !is_space(c),
        CharClass::Digit => is_digit(c),
        CharClass::Field => c != 44,
    }
}

/// The first index at or after `i`, below `hi`, whose byte is not in class
/// `k`; `hi` if there is none.
pub open spec fn skip_class(s: Seq<u8>, i: int, hi: int, k: CharClass) -> int
    decreases hi - i,
{
    if i < hi && in_class(s[i], k) {
        skip_class(s, i + 1, hi, k)
    } else {
        i
    }
}

pub proof fn lemma_skip_class(s: Seq<u8>, i: int, hi: int, k: CharClass)
    requires
        i <= hi,
    ensures
        i <= skip_class(s, i, hi, k) <= hi,
        forall|m: int| i <= m < skip_class(s, i, hi, k) ==> in_class(#[trigger] s[m], k),
        skip_class(s, i, hi, k) < hi ==> !in_class(s[skip_class(s, i, hi, k)], k),
    decreases hi - i,
{
    if i < hi && in_class(s[i], k) {
        lemma_skip_class(s, i + 1, hi, k);
    }
}

fn class_has(c: u8, k: CharClass) -> (r: bool)
    ensures
        r == in_class(c, k),
{
    match k {
        CharClass::Space => c == 32 || (9 <= c && c <= 13),
        CharClass::Word => !(c == 32 || (9 <= c && c <= 13)),
        CharClass::Digit => 48 <= c && c <= 57,
        CharClass::Field => c != 44,
    }
}

/// Skips the bytes of class `k` from `i` on, stopping at `hi`.
pub fn skip_bytes(b: &[u8], i: usize, hi: usize, k: CharClass) -> (r: usize)
    requires
        i <= hi <= b@.len(),
    ensures
        r == skip_class(b@, i as int, hi as int, k),
{
    let mut j = i;
    while j < hi && class_has(b[j], k)
        invariant
            i <= j <= hi,
            hi <= b@.len(),
            skip_class(b@, j as int, hi as int, k) == skip_class(b@, i as int, hi as int, k),
        decreases hi - j,
    {
        j = j + 1;
    }
    j
}

/// The last index of `[lo, hi)` after which only whitespace follows.
pub open spec fn trim_end(s: Seq<u8>, lo: int, hi: int) -> int
    decreases hi - lo,
{
    if lo < hi && is_space(s[hi - 1]) {
        trim_end(s, lo, hi - 1)
    } else {
        hi
    }
}

/// Drops trailing whitespace from `[lo, hi)`.
pub fn trim_end_bytes(b: &[u8], lo: usize, hi: usize) -> (r: usize)
    requires
        lo <= hi <= b@.len(),
    ensures
        r == trim_end(b@, lo as int, hi as int),
        lo <= r <= hi,
{
    let mut j = hi;
    while lo < j && class_has(b[j - 1], CharClass::Space)
        invariant
            lo <= j <= hi,
            hi <= b@.len(),
            trim_end(b@, lo as int, j as int) == trim_end(b@, lo as int, hi as int),
        decreases j - lo,
    {
        j = j - 1;
    }
    j
}

/// `pat` occurs in `s` at index `i`.
pub open spec fn matches_at(s: Seq<u8>, pat: Seq<u8>, i: int) -> bool {
    &&& 0 <= i
    &&& i + pat.len() <= s.len()
    &&& forall|m: int| 0 <= m < pat.len() ==> s[i + m] == #[trigger] pat[m]
}

/// The first index at or after `i` where `pat` occurs in `s`, or -1.
pub open spec fn find_from(s: Seq<u8>, pat: Seq<u8>, i: int) -> int
    decreases s.len() + 1 - i,
{
    if i < 0 || i + pat.len() > s.len() {
        -1
    } else if matches_at(s, pat, i) {
        i
    } else {
        find_from(s, pat, i + 1)
    }
}

pub open spec fn contains_pat(s: Seq<u8>, pat: Seq<u8>) -> bool {
    find_from(s, pat, 0) >= 0
}

pub proof fn lemma_find_from(s: Seq<u8>, pat: Seq<u8>, i: int)
    requires
        0 <= i,
    ensures
        find_from(s, pat, i) == -1 || (i <= find_from(s, pat, i) && matches_at(
            s,
            pat,
            find_from(s, pat, i),
        )),
    decreases s.len() + 1 - i,
{
    if !(i < 0 || i + pat.len() > s.len()) && !matches_at(s, pat, i) {
        lemma_find_from(s, pat, i + 1);
    }
}

fn matches_at_bytes(b: &[u8], pat: &[u8], i: usize) -> (r: bool)
    requires
        i + pat@.len() <= b@.len(),
    ensures
        r == matches_at(b@, pat@, i as int),
{
    let n = b.len();
    let mut m: usize = 0;
    while m < pat.len()
        invariant
            n == b@.len(),
            m <= pat@.len(),
            i + pat@.len() <= b@.len(),
            forall|t: int| 0 <= t < m ==> b@[i + t] == #[trigger] pat@[t],
        decreases pat@.len() - m,
    {
        if b[i + m] != pat[m] {
            return false;
        }
        m = m + 1;
    }
    true
}

/// Searches `b` for `pat` from `start` on.
pub fn find_bytes(b: &[u8], pat: &[u8], start: usize) -> (r: Option<usize>)
    requires
        start <= b@.len(),
    ensures
        match r {
            Some(k) => find_from(b@, pat@, start as int) == k as int,
            None => find_from(b@, pat@, start as int) == -1,
        },
{
    let mut i = start;
    while pat.len() <= b.len() - i
        invariant
            start <= i <= b@.len(),
            find_from(b@, pat@, start as int) == find_from(b@, pat@, i as int),
        decreases b@.len() - i,
    {
        if matches_at_bytes(b, pat, i) {
            return Some(i);
        }
        i = i + 1;
    }
    None
}

/// Value of the decimal digits in `[lo, hi)`.
pub open spec fn digits_value(s: Seq<u8>, lo: int, hi: int) -> int
    decreases hi - lo,
{
    if hi <= lo {
        0
    } else {
        digits_value(s, lo, hi - 1) * 10 + (s[hi - 1] as int - 48)
    }
}

/// Digit `i` of a mantissa whose whole digits are `[lo, lo + li)` and
/// whose fraction digits are `[fl, fl + lf)`; zero before and after them.
pub open spec fn mantissa_digit(s: Seq<u8>, lo: int, li: int, fl: int, lf: int, i: int) -> int {
    if 0 <= i < li {
        s[lo + i] as int - 48
    } else if li <= i < li + lf {
        s[fl + (i - li)] as int - 48
    } else {
        0
    }
}

/// The number that the first `n` mantissa digits spell.
pub open spec fn mantissa_prefix(s: Seq<u8>, lo: int, li: int, fl: int, lf: int, n: int) -> int
    decreases n,
{
    if n <= 0 {
        0
    } else {
        mantissa_prefix(s, lo, li, fl, lf, n - 1) * 10 + mantissa_digit(s, lo, li, fl, lf, n - 1)
    }
}

/// The exponent after a mantissa ending at `m`: none (0), or `e`/`E`, an
/// optional sign and at least one digit reaching `hi`.
pub open spec fn exponent_value(s: Seq<u8>, m: int, hi: int) -> Option<int> {
    if m >= hi {
        Some(0)
    } else if s[m] == 69 || s[m] == 101 {
        let neg = m + 1 < hi && s[m + 1] == 45;
        let x0 = if m + 1 < hi && (s[m + 1] == 45 || s[m + 1] == 43) {
            m + 2
        } else {
            m + 1
        };
        let x1 = skip_class(s, x0, hi, CharClass::Digit);
        if x1 == hi && x1 > x0 {
            Some(
                if neg {
                    -digits_value(s, x0, hi)
                } else {
                    digits_value(s, x0, hi)
                },
            )
        } else {
            None
        }
    } else {
        None
    }
}

/// An unsigned decimal in fixed-point steps: digits with an optional point
/// and more digits (at least one digit in all), then an optional exponent;
/// the value is rounded to the nearest step, halves away from zero.
pub open spec fn unsigned_value(s: Seq<u8>, lo: int, hi: int) -> Option<int> {
    let d = skip_class(s, lo, hi, CharClass::Digit);
    let has_point = d < hi && s[d] == 46;
    let fl = if has_point {
        d + 1
    } else {
        d
    };
    let fh = if has_point {
        skip_class(s, d + 1, hi, CharClass::Digit)
    } else {
        d
    };
    let li = d - lo;
    let lf = fh - fl;
    if li + lf == 0 {
        None
    } else {
        match exponent_value(s, fh, hi) {
            None => None,
            Some(x) => {
                let n = li + x + 6;
                Some(
                    mantissa_prefix(s, lo, li, fl, lf, n) + if mantissa_digit(s, lo, li, fl, lf, n)
                        >= 5 {
                        1int
                    } else {
                        0int
                    },
                )
            },
        }
    }
}

/// A decimal with an optional sign.
pub open spec fn signed_value(s: Seq<u8>, lo: int, hi: int) -> Option<int> {
    if lo < hi && s[lo] == 45 {
        match unsigned_value(s, lo + 1, hi) {
            Some(v) => Some(-v),
            None => None,
        }
    } else if lo < hi && s[lo] == 43 {
        unsigned_value(s, lo + 1, hi)
    } else {
        unsigned_value(s, lo, hi)
    }
}

/// The number that `[lo, hi)` spells, if it is one and lies within the
/// coordinate range.
pub open spec fn number_value(s: Seq<u8>, lo: int, hi: int) -> Option<int> {
    match signed_value(s, lo, hi) {
        Some(v) => if value_ok(v) {
            Some(v)
        } else {
            None
        },
        None => None,
    }
}

proof fn lemma_digits_nonneg(s: Seq<u8>, lo: int, hi: int)
    requires
        forall|m: int| lo <= m < hi ==> is_digit(#[trigger] s[m]),
    ensures
        0 <= digits_value(s, lo, hi),
    decreases hi - lo,
{
    if hi > lo {
        lemma_digits_nonneg(s, lo, hi - 1);
    }
}

proof fn lemma_digits_monotone(s: Seq<u8>, lo: int, k: int, hi: int)
    requires
        lo <= k <= hi,
        forall|m: int| lo <= m < hi ==> is_digit(#[trigger] s[m]),
    ensures
        digits_value(s, lo, k) <= digits_value(s, lo, hi),
    decreases hi - k,
{
    if k < hi {
        lemma_digits_monotone(s, lo, k, hi - 1);
        lemma_digits_nonneg(s, lo, hi - 1);
    }
}

/// The mantissa's whole and fraction digits are decimal digits.
pub open spec fn mantissa_ok(s: Seq<u8>, lo: int, li: int, fl: int, lf: int) -> bool {
    &&& 0 <= lo
    &&& 0 <= li
    &&& 0 <= fl
    &&& 0 <= lf
    &&& lo + li <= s.len()
    &&& fl + lf <= s.len()
    &&& forall|m: int| lo <= m < lo + li ==> is_digit(#[trigger] s[m])
    &&& forall|m: int| fl <= m < fl + lf ==> is_digit(#[trigger] s[m])
}

pub open spec fn pow10(k: nat) -> int
    decreases k,
{
    if k == 0 {
        1
    } else {
        10 * pow10((k - 1) as nat)
    }
}

proof fn lemma_mantissa_digit_range(s: Seq<u8>, lo: int, li: int, fl: int, lf: int, i: int)
    requires
        mantissa_ok(s, lo, li, fl, lf),
    ensures
        0 <= mantissa_digit(s, lo, li, fl, lf, i) <= 9,
{
    if 0 <= i < li {
        assert(is_digit(s[lo + i]));
    } else if li <= i < li + lf {
        assert(is_digit(s[fl + (i - li)]));
    }
}

proof fn lemma_prefix_monotone(s: Seq<u8>, lo: int, li: int, fl: int, lf: int, m: int, n: int)
    requires
        mantissa_ok(s, lo, li, fl, lf),
        m <= n,
    ensures
        0 <= mantissa_prefix(s, lo, li, fl, lf, m) <= mantissa_prefix(s, lo, li, fl, lf, n),
    decreases n - m, n,
{
    if n > 0 && m < n {
        lemma_prefix_monotone(s, lo, li, fl, lf, m, n - 1);
        lemma_mantissa_digit_range(s, lo, li, fl, lf, n - 1);
    } else if n > 0 {
        lemma_prefix_monotone(s, lo, li, fl, lf, n - 1, n - 1);
        lemma_mantissa_digit_range(s, lo, li, fl, lf, n - 1);
    }
}

proof fn lemma_prefix_grows(s: Seq<u8>, lo: int, li: int, fl: int, lf: int, f: int, k: nat)
    requires
        mantissa_ok(s, lo, li, fl, lf),
        0 <= f,
        mantissa_digit(s, lo, li, fl, lf, f) >= 1,
    ensures
        mantissa_prefix(s, lo, li, fl, lf, f + 1 + k) >= pow10(k),
    decreases k,
{
    lemma_mantissa_digit_range(s, lo, li, fl, lf, f + k);
    if k == 0 {
        lemma_prefix_monotone(s, lo, li, fl, lf, f, f);
    } else {
        lemma_prefix_grows(s, lo, li, fl, lf, f, (k - 1) as nat);
    }
}

proof fn lemma_prefix_zero(s: Seq<u8>, lo: int, li: int, fl: int, lf: int, n: int)
    requires
        forall|i: int| #[trigger] mantissa_digit(s, lo, li, fl, lf, i) == 0,
    ensures
        mantissa_prefix(s, lo, li, fl, lf, n) == 0,
    decreases n,
{
    if n > 0 {
        lemma_prefix_zero(s, lo, li, fl, lf, n - 1);
    }
}

proof fn lemma_pow10_16()
    ensures
        pow10(16) == 10_000_000_000_000_000,
{
    assert(pow10(0) == 1);
    assert(pow10(1) == 10);
    assert(pow10(2) == 100);
    assert(pow10(3) == 1000);
    assert(pow10(4) == 10000);
    assert(pow10(5) == 100000);
    assert(pow10(6) == 1000000);
    assert(pow10(7) == 10000000);
    assert(pow10(8) == 100000000);
    assert(pow10(9) == 1000000000);
    assert(pow10(10) == 10000000000);
    assert(pow10(11) == 100000000000);
    assert(pow10(12) == 1000000000000);
    assert(pow10(13) == 10000000000000);
    assert(pow10(14) == 100000000000000);
    assert(pow10(15) == 1000000000000000);
}

/// Digit `i` of the mantissa.
fn digit_at(b: &[u8], lo: usize, li: usize, fl: usize, lf: usize, i: i128) -> (r: i64)
    requires
        mantissa_ok(b@, lo as int, li as int, fl as int, lf as int),
    ensures
        r == mantissa_digit(b@, lo as int, li as int, fl as int, lf as int, i as int),
        0 <= r <= 9,
{
    proof {
        lemma_mantissa_digit_range(b@, lo as int, li as int, fl as int, lf as int, i as int);
    }
    let len = b.len();
    if 0 <= i && i < li as i128 {
        (b[lo + i as usize] - 48) as i64
    } else if li as i128 <= i && i < li as i128 + lf as i128 {
        (b[fl + (i - li as i128) as usize] - 48) as i64
    } else {
        0
    }
}

/// Parses an unsigned decimal; `None` where the text is no such number or
/// its value lies beyond the coordinate range.
fn parse_unsigned(b: &[u8], lo: usize, hi: usize) -> (r: Option<i64>)
    requires
        lo <= hi <= b@.len(),
    ensures
        match r {
            Some(v) => unsigned_value(b@, lo as int, hi as int) == Some(v as int) && 0 <= v
                <= COORD_LIMIT,
            None => match unsigned_value(b@, lo as int, hi as int) {
                Some(u) => u > COORD_LIMIT,
                None => true,
            },
        },
{
    let ghost s = b@;
    let d = skip_bytes(b, lo, hi, CharClass::Digit);
    proof {
        lemma_skip_class(s, lo as int, hi as int, CharClass::Digit);
    }
    let has_point = d < hi && b[d] == 46;
    let fl: usize = if has_point {
        d + 1
    } else {
        d
    };
    let fh: usize = if has_point {
        skip_bytes(b, d + 1, hi, CharClass::Digit)
    } else {
        d
    };
    proof {
        if has_point {
            lemma_skip_class(s, d + 1, hi as int, CharClass::Digit);
        }
    }
    let li = d - lo;
    let lf = fh - fl;
    if li == 0 && lf == 0 {
        return None;
    }
    let ghost (glo, gli, gfl, glf) = (lo as int, li as int, fl as int, lf as int);
    assert(mantissa_ok(s, glo, gli, gfl, glf));
    let mut neg = false;
    let mut beyond = false;
    let mut acc: i128 = 0;
    let cap: i128 = hi as i128 + 16;
    if fh < hi {
        if b[fh] != 69 && b[fh] != 101 {
            return None;
        }
        let mut x0 = fh + 1;
        if x0 < hi && (b[x0] == 45 || b[x0] == 43) {
            neg = b[x0] == 45;
            x0 = x0 + 1;
        }
        let x1 = skip_bytes(b, x0, hi, CharClass::Digit);
        proof {
            lemma_skip_class(s, x0 as int, hi as int, CharClass::Digit);
        }
        if x1 != hi || x1 == x0 {
            return None;
        }
        let mut i = x0;
        while i < hi && !beyond
            invariant
                x0 <= i <= hi <= s.len(),
                s == b@,
                cap == hi + 16,
                forall|m: int| x0 <= m < hi ==> is_digit(#[trigger] s[m]),
                !beyond ==> acc == digits_value(s, x0 as int, i as int) && 0 <= acc <= cap,
                beyond ==> digits_value(s, x0 as int, hi as int) > cap,
            decreases hi - i + (if beyond { 0int } else { 1int }),
        {
            let next = acc * 10 + (b[i] - 48) as i128;
            if next > cap {
                proof {
                    lemma_digits_monotone(s, x0 as int, i + 1, hi as int);
                }
                beyond = true;
            } else {
                acc = next;
                i = i + 1;
            }
        }
        proof {
            assert(exponent_value(s, fh as int, hi as int) == Some(
                if neg {
                    -digits_value(s, x0 as int, hi as int)
                } else {
                    digits_value(s, x0 as int, hi as int)
                },
            ));
        }
    }
    let ghost x: int = match exponent_value(s, fh as int, hi as int) {
        Some(v) => v,
        None => 0,
    };
    assert(exponent_value(s, fh as int, hi as int) == Some(x));
    assert(!beyond ==> x == if neg { -(acc as int) } else { acc as int });
    assert(beyond ==> if neg { x < -cap } else { x > cap });
    let ghost n = gli + x + 6;
    assert(unsigned_value(s, lo as int, hi as int) == Some(
        mantissa_prefix(s, glo, gli, gfl, glf, n) + if mantissa_digit(s, glo, gli, gfl, glf, n)
            >= 5 {
            1int
        } else {
            0int
        },
    ));
    assert(gli + glf <= hi);
    if beyond {
        if neg {
            assert(mantissa_prefix(s, glo, gli, gfl, glf, n) == 0);
            assert(mantissa_digit(s, glo, gli, gfl, glf, n) == 0);
            return Some(0);
        }
        let total: i128 = li as i128 + lf as i128;
        let mut k: i128 = 0;
        while k < total
            invariant
                0 <= k <= total,
                total == gli + glf,
                mantissa_ok(s, glo, gli, gfl, glf),
                s == b@,
                glo == lo && gli == li && gfl == fl && glf == lf,
                gli + glf <= hi,
                x > cap,
                cap == hi + 16,
                n == gli + x + 6,
                unsigned_value(s, lo as int, hi as int) == Some(
                    mantissa_prefix(s, glo, gli, gfl, glf, n) + if mantissa_digit(
                        s,
                        glo,
                        gli,
                        gfl,
                        glf,
                        n,
                    ) >= 5 {
                        1int
                    } else {
                        0int
                    },
                ),
                forall|t: int| 0 <= t < k ==> #[trigger] mantissa_digit(s, glo, gli, gfl, glf, t)
                    == 0,
            decreases total - k,
        {
            if digit_at(b, lo, li, fl, lf, k) != 0 {
                proof {
                    assert(k + 17 <= n);
                    lemma_prefix_grows(s, glo, gli, gfl, glf, k as int, 16);
                    lemma_pow10_16();
                    lemma_prefix_monotone(s, glo, gli, gfl, glf, k + 17, n);
                    lemma_mantissa_digit_range(s, glo, gli, gfl, glf, n);
                }
                return None;
            }
            k = k + 1;
        }
        proof {
            assert forall|i: int| #[trigger] mantissa_digit(s, glo, gli, gfl, glf, i) == 0 by {}
            lemma_prefix_zero(s, glo, gli, gfl, glf, n);
        }
        return Some(0);
    }
    let xe: i128 = if neg {
        -acc
    } else {
        acc
    };
    let n_exec: i128 = li as i128 + xe + 6;
    let rd = digit_at(b, lo, li, fl, lf, n_exec);
    let round: i64 = if rd >= 5 {
        1
    } else {
        0
    };
    let mut v: i64 = 0;
    let mut j: i128 = 0;
    while j < n_exec
        invariant
            0 <= j,
            j <= n_exec || j == 0,
            n_exec == n,
            mantissa_ok(s, glo, gli, gfl, glf),
            s == b@,
            glo == lo && gli == li && gfl == fl && glf == lf,
            round == (if mantissa_digit(s, glo, gli, gfl, glf, n) >= 5 {
                1int
            } else {
                0int
            }),
            unsigned_value(s, lo as int, hi as int) == Some(
                mantissa_prefix(s, glo, gli, gfl, glf, n) + if mantissa_digit(
                    s,
                    glo,
                    gli,
                    gfl,
                    glf,
                    n,
                ) >= 5 {
                    1int
                } else {
                    0int
                },
            ),
            v == mantissa_prefix(s, glo, gli, gfl, glf, j as int),
            0 <= v <= COORD_LIMIT,
        decreases n_exec - j,
    {
        let next = v * 10 + digit_at(b, lo, li, fl, lf, j);
        if next > COORD_LIMIT {
            proof {
                lemma_prefix_monotone(s, glo, gli, gfl, glf, j + 1, n);
                lemma_mantissa_digit_range(s, glo, gli, gfl, glf, n);
            }
            return None;
        }
        v = next;
        j = j + 1;
    }
    assert(v == mantissa_prefix(s, glo, gli, gfl, glf, n));
    proof {
        lemma_prefix_monotone(s, glo, gli, gfl, glf, n, n);
    }
    let total = v + round;
    if total > COORD_LIMIT {
        return None;
    }
    Some(total)
}

/// Parses an optionally signed decimal within the coordinate range.
pub fn parse_number(b: &[u8], lo: usize, hi: usize) -> (r: Option<i64>)
    requires
        lo <= hi <= b@.len(),
    ensures
        match r {
            Some(v) => number_value(b@, lo as int, hi as int) == Some(v as int),
            None => number_value(b@, lo as int, hi as int) is None,
        },
{
    if lo < hi && b[lo] == 45 {
        match parse_unsigned(b, lo + 1, hi) {
            Some(v) => Some(-v),
            None => None,
        }
    } else if lo < hi && b[lo] == 43 {
        parse_unsigned(b, lo + 1, hi)
    } else {
        parse_unsigned(b, lo, hi)
    }
}

} // verus!
