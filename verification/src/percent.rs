use vstd::prelude::*;
use crate::order::{key_lt, lemma_key_lt_irreflexive};
use crate::text::{
    all_digits, chars_of, digit_of, digit_value, digits_value, is_digit, read_digits, DigitRun,
};

verus! {

// ---------------------------------------------------------------------------
// Reading percentages such as "12.50%"
// ---------------------------------------------------------------------------

/// The string without its trailing `%` characters, as `trim_end_matches('%')` gives it.
pub open spec fn trim_percent(s: Seq<char>) -> Seq<char>
    decreases s.len(),
{
    if s.len() > 0 && s.last() == '%' {
        trim_percent(s.drop_last())
    } else {
        s
    }
}

/// The index of the first `.` in `b`, or `b.len()` when there is none.
pub open spec fn first_dot(b: Seq<char>) -> int
    decreases b.len(),
{
    if b.len() == 0 {
        0
    } else if b[0] == '.' {
        0
    } else {
        1 + first_dot(b.drop_first())
    }
}

/// The first two digits of a fraction, read as hundredths.
pub open spec fn fraction_hundredths(f: Seq<char>) -> int {
    (if f.len() > 0 { digit_value(f[0]) * 10 } else { 0 }) + (if f.len() > 1 {
        digit_value(f[1])
    } else {
        0
    })
}

/// An unsigned decimal number `digits[.digits]`, with at least one digit, in hundredths
/// (further decimals are dropped).
pub open spec fn unsigned_hundredths(b: Seq<char>) -> Option<int> {
    let k = first_dot(b);
    let ip = b.subrange(0, k);
    let frac = if k < b.len() {
        b.subrange(k + 1, b.len() as int)
    } else {
        Seq::<char>::empty()
    };
    if all_digits(ip) && all_digits(frac) && ip.len() + frac.len() > 0 {
        Some(digits_value(ip) * 100 + fraction_hundredths(frac))
    } else {
        None
    }
}

/// A signed decimal number, in hundredths.
pub open spec fn decimal_hundredths(s: Seq<char>) -> Option<int> {
    if s.len() > 0 && (s[0] == '-' || s[0] == '+') {
        match unsigned_hundredths(s.drop_first()) {
            Some(v) => Some(
                if s[0] == '-' {
                    -v
                } else {
                    v
                },
            ),
            None => None,
        }
    } else {
        unsigned_hundredths(s)
    }
}


/// The smallest number that `parse::<f32>` reads as infinity, 2^128 - 2^103: halfway
/// between the largest finite `f32` and 2^128, where rounding goes up.
pub const F32_OVERFLOW: u128 = 340282356779733661637539395458142568448;

/// 2^62, the base of the limbs of a key.
pub const LIMB: u128 = 4611686018427387904;

/// The capital of the letters of the infinity words.
pub open spec fn upper_of(c: char) -> char {
    if c == 'i' {
        'I'
    } else if c == 'n' {
        'N'
    } else if c == 'f' {
        'F'
    } else if c == 't' {
        'T'
    } else if c == 'y' {
        'Y'
    } else {
        c
    }
}

/// `s` spells the lower-case word `w`, each letter in either case.
pub open spec fn matches_word(s: Seq<char>, w: Seq<char>) -> bool {
    s.len() == w.len() && forall|i: int| 0 <= i < s.len() ==> (s[i] == w[i] || s[i] == upper_of(w[i]))
}

/// The word `inf`.
pub open spec fn word_inf() -> Seq<char> {
    seq!['i', 'n', 'f']
}

/// The word `infinity`.
pub open spec fn word_infinity() -> Seq<char> {
    seq!['i', 'n', 'f', 'i', 'n', 'i', 't', 'y']
}

/// `inf` or `infinity`, in any case.
pub open spec fn is_infinity_word(b: Seq<char>) -> bool {
    matches_word(b, word_inf()) || matches_word(b, word_infinity())
}

/// The sign of a text that spells infinity (with an optional `+` or `-`), 0 for any other.
pub open spec fn infinity_sign(t: Seq<char>) -> int {
    if t.len() > 0 && t[0] == '-' && is_infinity_word(t.drop_first()) {
        -1
    } else if t.len() > 0 && t[0] == '+' && is_infinity_word(t.drop_first()) {
        1
    } else if is_infinity_word(t) {
        1
    } else {
        0
    }
}

/// How a percentage text reads once its trailing `%` are gone, as `parse::<f32>` reads it:
/// 1 for plus infinity (an infinity word, or a number too large for an `f32`), -1 for
/// minus infinity, 0 for a finite number.
pub open spec fn percent_class(s: Seq<char>) -> int {
    let t = trim_percent(s);
    if infinity_sign(t) != 0 {
        infinity_sign(t)
    } else {
        match decimal_hundredths(t) {
            Some(h) => if h >= 100 * F32_OVERFLOW {
                1
            } else if h <= -100 * F32_OVERFLOW {
                -1
            } else {
                0
            },
            None => 0,
        }
    }
}

/// The finite value of a percentage text, in hundredths (decimals after the second are
/// dropped); 0 for a text that is no decimal number, as `unwrap_or(0.0)` gives. Texts in
/// exponent form and `NaN` are read as no number here.
pub open spec fn percent_value(s: Seq<char>) -> int {
    if percent_class(s) != 0 {
        0
    } else {
        match decimal_hundredths(trim_percent(s)) {
            Some(h) => h,
            None => 0,
        }
    }
}

/// `s` reads as a larger number than `u`.
pub open spec fn percent_above(s: Seq<char>, u: Seq<char>) -> bool {
    percent_class(s) > percent_class(u) || (percent_class(s) == 0 && percent_class(u) == 0
        && percent_value(s) > percent_value(u))
}

/// The limbs of a natural number below 2^136 in hundredths: its whole part in three digits
/// of base 2^62, then the hundredths.
pub open spec fn limbs(m: int) -> Seq<i64> {
    let w = m / 100;
    seq![
        (w / ((LIMB as int) * (LIMB as int))) as i64,
        ((w / (LIMB as int)) % (LIMB as int)) as i64,
        (w % (LIMB as int)) as i64,
        (m % 100) as i64,
    ]
}

/// The limbs, negated: larger numbers come first.
pub open spec fn limbs_desc(m: int) -> Seq<i64> {
    let w = m / 100;
    seq![
        (-(w / ((LIMB as int) * (LIMB as int)))) as i64,
        (-((w / (LIMB as int)) % (LIMB as int))) as i64,
        (-(w % (LIMB as int))) as i64,
        (-(m % 100)) as i64,
    ]
}

/// The key of a reading of class `c` and finite value `v`, the largest first: plus
/// infinity, then positive numbers by decreasing value, then zero, then negative numbers,
/// then minus infinity.
pub open spec fn reading_key(c: int, v: int) -> Seq<i64> {
    if c == 1 {
        seq![0i64]
    } else if c == -1 {
        seq![4i64]
    } else if v > 0 {
        seq![1i64] + limbs_desc(v)
    } else if v == 0 {
        seq![2i64]
    } else {
        seq![3i64] + limbs(-v)
    }
}

/// The key by which the percentage columns are sorted, the largest number first (see
/// `reading_key`); a text that is no number keys as zero.
pub open spec fn percent_desc_key(s: Seq<char>) -> Seq<i64> {
    reading_key(percent_class(s), percent_value(s))
}

proof fn lemma_trim_percent_prefix(s: Seq<char>, end: int)
    requires
        0 <= end <= s.len(),
        forall|j: int| end <= j < s.len() ==> s[j] == '%',
    ensures
        trim_percent(s) == trim_percent(s.subrange(0, end)),
    decreases s.len(),
{
    if end < s.len() {
        assert(s.last() == '%');
        assert(s.drop_last().subrange(0, end) == s.subrange(0, end));
        lemma_trim_percent_prefix(s.drop_last(), end);
    } else {
        assert(s.subrange(0, end) == s);
    }
}

proof fn lemma_first_dot(b: Seq<char>, m: int)
    requires
        0 <= m <= b.len(),
        forall|j: int| 0 <= j < m ==> b[j] != '.',
        m == b.len() || b[m] == '.',
    ensures
        first_dot(b) == m,
    decreases b.len(),
{
    if b.len() > 0 && m > 0 {
        lemma_first_dot(b.drop_first(), m - 1);
    }
}

/// Whether `cs[a..b]` holds only digits.
fn digits_only(cs: &Vec<char>, a: usize, b: usize) -> (r: bool)
    requires
        a <= b <= cs.len(),
    ensures
        r == all_digits(cs@.subrange(a as int, b as int)),
{
    let mut i = a;
    while i < b
        invariant
            a <= i <= b <= cs.len(),
            all_digits(cs@.subrange(a as int, i as int)),
        decreases b - i,
    {
        let c = cs[i];
        if !('0' <= c && c <= '9') {
            assert(!is_digit(cs@.subrange(a as int, b as int)[i - a]));
            return false;
        }
        assert forall|j: int| 0 <= j < i + 1 - a implies #[trigger] is_digit(
            cs@.subrange(a as int, i + 1)[j],
        ) by {
            if j < i - a {
                assert(cs@.subrange(a as int, i + 1)[j] == cs@.subrange(a as int, i as int)[j]);
            }
        }
        i = i + 1;
    }
    true
}


/// Comparing by quotient, then remainder, compares the numbers.
pub proof fn lemma_divmod_order(x: int, y: int, d: int)
    requires
        0 <= x,
        0 <= y,
        0 < d,
    ensures
        x < y <==> (x / d < y / d || (x / d == y / d && x % d < y % d)),
        x == y <==> (x / d == y / d && x % d == y % d),
        0 <= x % d < d,
        0 <= x / d,
{
    vstd::arithmetic::div_mod::lemma_fundamental_div_mod(x, d);
    vstd::arithmetic::div_mod::lemma_fundamental_div_mod(y, d);
    vstd::arithmetic::div_mod::lemma_mod_bound(x, d);
    vstd::arithmetic::div_mod::lemma_mod_bound(y, d);
    vstd::arithmetic::div_mod::lemma_div_pos_is_pos(x, d);
    vstd::arithmetic::div_mod::lemma_div_pos_is_pos(y, d);
    let qx = x / d;
    let qy = y / d;
    let rx = x % d;
    let ry = y % d;
    assert(qx < qy ==> x < y) by (nonlinear_arith)
        requires
            x == d * qx + rx,
            y == d * qy + ry,
            0 <= rx < d,
            0 <= ry < d,
    ;
    assert(qy < qx ==> y < x) by (nonlinear_arith)
        requires
            x == d * qx + rx,
            y == d * qy + ry,
            0 <= rx < d,
            0 <= ry < d,
    ;
}

proof fn lemma_limb_bounds(m: int)
    requires
        0 <= m < 100 * F32_OVERFLOW,
    ensures
        0 <= (m / 100) / ((LIMB as int) * (LIMB as int)) < 16,
        0 <= (m / 100 / (LIMB as int)) % (LIMB as int) < LIMB as int,
        0 <= (m / 100) % (LIMB as int) < LIMB as int,
        0 <= m % 100 < 100,
{
    vstd::arithmetic::div_mod::lemma_div_pos_is_pos(m, 100);
    vstd::arithmetic::div_mod::lemma_mod_bound(m, 100);
    let w = m / 100;
    vstd::arithmetic::div_mod::lemma_div_is_ordered(m, 100 * F32_OVERFLOW, 100);
    vstd::arithmetic::div_mod::lemma_div_multiples_vanish(F32_OVERFLOW as int, 100);
    assert(w <= F32_OVERFLOW);
    vstd::arithmetic::div_mod::lemma_div_pos_is_pos(w, (LIMB as int) * (LIMB as int));
    vstd::arithmetic::div_mod::lemma_div_is_ordered(w, F32_OVERFLOW as int, (LIMB as int) * (LIMB as int));
    vstd::arithmetic::div_mod::lemma_fundamental_div_mod_converse(
        F32_OVERFLOW as int,
        (LIMB as int) * (LIMB as int),
        15,
        F32_OVERFLOW - 15 * ((LIMB as int) * (LIMB as int)),
    );
    vstd::arithmetic::div_mod::lemma_mod_bound(w / (LIMB as int), LIMB as int);
    vstd::arithmetic::div_mod::lemma_div_pos_is_pos(w, LIMB as int);
    vstd::arithmetic::div_mod::lemma_mod_bound(w, LIMB as int);
}

/// The limbs of numbers below `100 * F32_OVERFLOW` order them as the numbers.
proof fn lemma_limbs_order(x: int, y: int)
    requires
        0 <= x < 100 * F32_OVERFLOW,
        0 <= y < 100 * F32_OVERFLOW,
    ensures
        key_lt(limbs(x), limbs(y)) == (x < y),
        key_lt(limbs_desc(x), limbs_desc(y)) == (x > y),
        (limbs(x) == limbs(y)) == (x == y),
        (limbs_desc(x) == limbs_desc(y)) == (x == y),
{
    lemma_limb_bounds(x);
    lemma_limb_bounds(y);
    let wx = x / 100;
    let wy = y / 100;
    lemma_divmod_order(x, y, 100);
    lemma_divmod_order(wx, wy, LIMB as int);
    lemma_divmod_order(wx / (LIMB as int), wy / (LIMB as int), LIMB as int);
    vstd::arithmetic::div_mod::lemma_div_denominator(wx, LIMB as int, LIMB as int);
    vstd::arithmetic::div_mod::lemma_div_denominator(wy, LIMB as int, LIMB as int);
    reveal_with_fuel(key_lt, 5);
    let lx = limbs(x);
    let ly = limbs(y);
    assert(lx.drop_first() =~= seq![lx[1], lx[2], lx[3]]);
    assert(ly.drop_first() =~= seq![ly[1], ly[2], ly[3]]);
    assert(lx.drop_first().drop_first() =~= seq![lx[2], lx[3]]);
    assert(ly.drop_first().drop_first() =~= seq![ly[2], ly[3]]);
    assert(lx.drop_first().drop_first().drop_first() =~= seq![lx[3]]);
    assert(ly.drop_first().drop_first().drop_first() =~= seq![ly[3]]);
    assert(seq![lx[3]].drop_first() =~= Seq::<i64>::empty());
    assert(seq![ly[3]].drop_first() =~= Seq::<i64>::empty());
    let dx = limbs_desc(x);
    let dy = limbs_desc(y);
    assert(dx.drop_first() =~= seq![dx[1], dx[2], dx[3]]);
    assert(dy.drop_first() =~= seq![dy[1], dy[2], dy[3]]);
    assert(dx.drop_first().drop_first() =~= seq![dx[2], dx[3]]);
    assert(dy.drop_first().drop_first() =~= seq![dy[2], dy[3]]);
    assert(dx.drop_first().drop_first().drop_first() =~= seq![dx[3]]);
    assert(dy.drop_first().drop_first().drop_first() =~= seq![dy[3]]);
    assert(seq![dx[3]].drop_first() =~= Seq::<i64>::empty());
    assert(seq![dy[3]].drop_first() =~= Seq::<i64>::empty());
    if lx == ly {
        assert(lx[0] == ly[0] && lx[1] == ly[1] && lx[2] == ly[2] && lx[3] == ly[3]);
    }
    if dx == dy {
        assert(dx[0] == dy[0] && dx[1] == dy[1] && dx[2] == dy[2] && dx[3] == dy[3]);
    }
}

proof fn lemma_reading_key_order(c1: int, v1: int, c2: int, v2: int)
    requires
        -1 <= c1 <= 1,
        -1 <= c2 <= 1,
        c1 == 0 ==> -100 * F32_OVERFLOW < v1 < 100 * F32_OVERFLOW,
        c2 == 0 ==> -100 * F32_OVERFLOW < v2 < 100 * F32_OVERFLOW,
    ensures
        key_lt(reading_key(c1, v1), reading_key(c2, v2)) == (c1 > c2 || (c1 == 0 && c2 == 0 && v1 > v2)),
        (reading_key(c1, v1) == reading_key(c2, v2)) == (c1 == c2 && (c1 != 0 || v1 == v2)),
{
    let k1 = reading_key(c1, v1);
    let k2 = reading_key(c2, v2);
    assert(k1.len() > 0 && k2.len() > 0);
    lemma_key_lt_irreflexive(k1);
    if c1 == 0 && c2 == 0 {
        if v1 > 0 && v2 > 0 {
            lemma_limbs_order(v1, v2);
            assert(k1.drop_first() =~= limbs_desc(v1));
            assert(k2.drop_first() =~= limbs_desc(v2));
            if k1 == k2 {
                assert(k1.drop_first() == k2.drop_first());
            }
            if limbs_desc(v1) == limbs_desc(v2) {
                assert(k1 =~= k2);
            }
        } else if v1 < 0 && v2 < 0 {
            lemma_limbs_order(-v1, -v2);
            assert(k1.drop_first() =~= limbs(-v1));
            assert(k2.drop_first() =~= limbs(-v2));
            if k1 == k2 {
                assert(k1.drop_first() == k2.drop_first());
            }
            if limbs(-v1) == limbs(-v2) {
                assert(k1 =~= k2);
            }
        } else if k1 == k2 {
            assert(k1[0] == k2[0]);
        }
    } else if k1 == k2 {
        assert(k1[0] == k2[0]);
    }
}

/// The key of a percentage column orders the texts by the numbers they read as, the
/// largest first, with the infinities at the ends; texts key alike exactly when they read
/// as the same number.
pub proof fn law_percent_order(s: Seq<char>, u: Seq<char>)
    ensures
        key_lt(percent_desc_key(s), percent_desc_key(u)) == percent_above(s, u),
        (percent_desc_key(s) == percent_desc_key(u)) == (percent_class(s) == percent_class(u) && (
        percent_class(s) != 0 || percent_value(s) == percent_value(u))),
{
    lemma_reading_key_order(percent_class(s), percent_value(s), percent_class(u), percent_value(u));
}

/// The end of `cs` once its trailing `%` are gone.
fn end_without_percent(cs: &Vec<char>) -> (end: usize)
    ensures
        end <= cs.len(),
        trim_percent(cs@) == cs@.subrange(0, end as int),
{
    let n = cs.len();
    let mut end = n;
    while end > 0 && cs[end - 1] == '%'
        invariant
            end <= n == cs.len(),
            forall|j: int| end <= j < n ==> cs@[j] == '%',
        decreases end,
    {
        end = end - 1;
    }
    proof {
        lemma_trim_percent_prefix(cs@, end as int);
    }
    end
}

/// The index of the first `.` in `cs[st..end]`, or `end`.
fn find_dot(cs: &Vec<char>, st: usize, end: usize) -> (k: usize)
    requires
        st <= end <= cs.len(),
    ensures
        st <= k <= end,
        first_dot(cs@.subrange(st as int, end as int)) == k - st,
{
    let mut k = st;
    while k < end && cs[k] != '.'
        invariant
            st <= k <= end <= cs.len(),
            forall|j: int| st <= j < k ==> cs@[j] != '.',
        decreases end - k,
    {
        k = k + 1;
    }
    proof {
        lemma_first_dot(cs@.subrange(st as int, end as int), k - st);
    }
    k
}


/// Whether `cs[a..b]` spells `inf` or `infinity`, in any case.
fn infinity_word_at(cs: &Vec<char>, a: usize, b: usize) -> (r: bool)
    requires
        a <= b <= cs.len(),
    ensures
        r == is_infinity_word(cs@.subrange(a as int, b as int)),
{
    let ghost t = cs@.subrange(a as int, b as int);
    let n = b - a;
    let word: Vec<char> = vec!['i', 'n', 'f', 'i', 'n', 'i', 't', 'y'];
    let ghost w8 = word_infinity();
    let ghost w3 = word_inf();
    assert(w3 =~= w8.subrange(0, 3));
    assert(word@ =~= w8);
    assert(word@.len() == 8);
    if n != 3 && n != 8 {
        return false;
    }
    let mut i: usize = 0;
    while i < n
        invariant
            a <= b <= cs.len(),
            n == b - a,
            n == 3 || n == 8,
            word@ == w8,
            word@.len() == 8,
            w3 == w8.subrange(0, 3),
            w3 == word_inf(),
            w8 == word_infinity(),
            t == cs@.subrange(a as int, b as int),
            t.len() == n,
            i <= n,
            forall|j: int| 0 <= j < i ==> (t[j] == w8[j] || t[j] == upper_of(w8[j])),
        decreases n - i,
    {
        let c = cs[a + i];
        let w = word[i];
        let up = if w == 'i' {
            'I'
        } else if w == 'n' {
            'N'
        } else if w == 'f' {
            'F'
        } else if w == 't' {
            'T'
        } else if w == 'y' {
            'Y'
        } else {
            w
        };
        assert(up == upper_of(w));
        assert(w == w8[i as int]);
        assert(t[i as int] == c);
        if c != w && c != up {
            proof {
                assert(w8.len() == 8 && w3.len() == 3);
                assert(!(t[i as int] == w8[i as int] || t[i as int] == upper_of(w8[i as int])));
                if n == 3 {
                    assert(w3[i as int] == w8[i as int]);
                    assert(!matches_word(t, w3));
                    assert(t.len() != w8.len());
                    assert(!matches_word(t, w8));
                } else {
                    assert(!matches_word(t, w8));
                    assert(t.len() != w3.len());
                    assert(!matches_word(t, w3));
                }
                assert(!is_infinity_word(t));
            }
            return false;
        }
        i = i + 1;
    }
    assert(w8.len() == 8);
    assert(w3.len() == 3);
    if n == 8 {
        assert(matches_word(t, w8));
    }
    proof {
        if n == 3 {
            assert forall|j: int| 0 <= j < t.len() implies (t[j] == w3[j] || t[j] == upper_of(w3[j])) by {
                assert(w3[j] == w8[j]);
            }
            assert(matches_word(t, w3));
        }
        assert(is_infinity_word(t));
    }
    true
}

/// A finite unsigned reading: its whole part and its hundredths.
enum Unsigned {
    NotNumber,
    Huge,
    Value(u128, u64),
}

/// `unsigned_hundredths` of `cs[st..end]`, against the limit of an `f32`.
fn unsigned_reading(cs: &Vec<char>, st: usize, end: usize) -> (r: Unsigned)
    requires
        st <= end <= cs.len(),
    ensures
        match unsigned_hundredths(cs@.subrange(st as int, end as int)) {
            Some(h) => h >= 0 && match r {
                Unsigned::NotNumber => false,
                Unsigned::Huge => h >= 100 * F32_OVERFLOW,
                Unsigned::Value(w, f) => h == 100 * w + f && f < 100 && w < F32_OVERFLOW,
            },
            None => r is NotNumber,
        },
{
    let ghost b = cs@.subrange(st as int, end as int);
    let k = find_dot(cs, st, end);
    assert(b.subrange(0, k - st) == cs@.subrange(st as int, k as int));
    let fa: usize = if k < end { k + 1 } else { end };
    let ghost frac = cs@.subrange(fa as int, end as int);
    if k < end {
        assert(b.subrange(k - st + 1, b.len() as int) == frac);
    } else {
        assert(frac =~= Seq::<char>::empty());
    }
    if !digits_only(cs, st, k) || !digits_only(cs, fa, end) || (k == st && fa == end) {
        return Unsigned::NotNumber;
    }
    let mut fh: u64 = 0;
    if fa < end {
        assert(is_digit(frac[0]));
        fh = (digit_of(cs[fa]) as u64) * 10;
    }
    if end - fa > 1 {
        assert(is_digit(frac[1]));
        fh = fh + (digit_of(cs[fa + 1]) as u64);
    }
    assert(fh == fraction_hundredths(frac));
    let ghost ipseq = cs@.subrange(st as int, k as int);
    if k == st {
        assert(ipseq =~= Seq::<char>::empty());
        Unsigned::Value(0, fh)
    } else {
        match read_digits(cs, st, k, F32_OVERFLOW - 1) {
            DigitRun::NotDigits => Unsigned::NotNumber,
            DigitRun::TooBig => Unsigned::Huge,
            DigitRun::Value(v) => Unsigned::Value(v, fh),
        }
    }
}

proof fn lemma_split_hundredths(w: int, f: int)
    requires
        0 <= w,
        0 <= f < 100,
    ensures
        (100 * w + f) / 100 == w,
        (100 * w + f) % 100 == f,
{
    vstd::arithmetic::div_mod::lemma_fundamental_div_mod_converse(100 * w + f, 100, w, f);
}

/// The limbs of `100 * w + f`, negated when `desc`, after the tag.
fn limb_key(tag: i64, w: u128, f: u64, desc: bool) -> (k: Vec<i64>)
    requires
        w < F32_OVERFLOW,
        f < 100,
    ensures
        desc ==> k@ == seq![tag] + limbs_desc(100 * w + f),
        !desc ==> k@ == seq![tag] + limbs(100 * w + f),
{
    proof {
        lemma_split_hundredths(w as int, f as int);
        lemma_limb_bounds(100 * w + f);
        vstd::arithmetic::div_mod::lemma_div_denominator(w as int, LIMB as int, LIMB as int);
    }
    let a = (w / (LIMB * LIMB)) as i64;
    let b = ((w / LIMB) % LIMB) as i64;
    let c = (w % LIMB) as i64;
    let d = f as i64;
    let mut k: Vec<i64> = Vec::new();
    k.push(tag);
    if desc {
        k.push(0 - a);
        k.push(0 - b);
        k.push(0 - c);
        k.push(0 - d);
        assert(k@ =~= seq![tag] + limbs_desc(100 * w + f));
    } else {
        k.push(a);
        k.push(b);
        k.push(c);
        k.push(d);
        assert(k@ =~= seq![tag] + limbs(100 * w + f));
    }
    k
}

/// The key by which a percentage column is sorted: `percent_desc_key`.
pub fn percent_key_of(s: &str) -> (k: Vec<i64>)
    ensures
        k@ == percent_desc_key(s@),
{
    let cs = chars_of(s);
    let end = end_without_percent(&cs);
    let ghost t = cs@.subrange(0, end as int);
    assert(trim_percent(s@) == t);
    let signed = end > 0 && (cs[0] == '-' || cs[0] == '+');
    let neg = end > 0 && cs[0] == '-';
    let st: usize = if signed { 1 } else { 0 };
    assert(signed ==> cs@.subrange(st as int, end as int) == t.drop_first());
    assert(!signed ==> cs@.subrange(st as int, end as int) == t);
    // Infinity words.
    let rest_inf = infinity_word_at(&cs, st, end);
    let whole_inf = infinity_word_at(&cs, 0, end);
    if (signed && rest_inf) || whole_inf {
        proof {
            if whole_inf {
                assert(cs@.subrange(0, end as int) == t);
            }
        }
        let mut k: Vec<i64> = Vec::new();
        if signed && rest_inf && neg {
            k.push(4);
        } else {
            assert(whole_inf ==> !(t.len() > 0 && (t[0] == '-' || t[0] == '+'))) by {
                if whole_inf && t.len() > 0 {
                    assert(t[0] == cs@.subrange(0, end as int)[0]);
                }
            }
            k.push(0);
        }
        assert(k@ =~= percent_desc_key(s@));
        return k;
    }
    assert(infinity_sign(t) == 0);
    let mut k: Vec<i64> = Vec::new();
    match unsigned_reading(&cs, st, end) {
        Unsigned::NotNumber => {
            k.push(2);
            assert(k@ =~= percent_desc_key(s@));
            k
        },
        Unsigned::Huge => {
            if neg {
                k.push(4);
            } else {
                k.push(0);
            }
            assert(k@ =~= percent_desc_key(s@));
            k
        },
        Unsigned::Value(w, f) => {
            if w == 0 && f == 0 {
                k.push(2);
                assert(k@ =~= percent_desc_key(s@));
                k
            } else if neg {
                let r = limb_key(3, w, f, false);
                assert(r@ =~= percent_desc_key(s@));
                r
            } else {
                let r = limb_key(1, w, f, true);
                assert(r@ =~= percent_desc_key(s@));
                r
            }
        },
    }
}

} // verus!
