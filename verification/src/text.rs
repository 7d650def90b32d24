use vstd::prelude::*;

verus! {

// ---------------------------------------------------------------------------
// Characters and digits
// ---------------------------------------------------------------------------

/// An ASCII decimal digit.
pub open spec fn is_digit(c: char) -> bool {
    '0' <= c && c <= '9'
}

/// The numeric value of an ASCII decimal digit.
pub open spec fn digit_value(c: char) -> int {
    (c as int) - ('0' as int)
}

/// The ASCII digit that writes `d`, for `0 <= d < 10`.
pub open spec fn digit_char(d: int) -> char {
    if d == 0 { '0' } else if d == 1 { '1' } else if d == 2 { '2' } else if d == 3 { '3' }
    else if d == 4 { '4' } else if d == 5 { '5' } else if d == 6 { '6' } else if d == 7 { '7' }
    else if d == 8 { '8' } else { '9' }
}

pub open spec fn all_digits(s: Seq<char>) -> bool {
    forall|i: int| 0 <= i < s.len() ==> #[trigger] is_digit(s[i])
}

/// The value of a string of decimal digits, most significant first.
pub open spec fn digits_value(s: Seq<char>) -> int
    decreases s.len(),
{
    if s.len() == 0 {
        0
    } else {
        digits_value(s.drop_last()) * 10 + digit_value(s.last())
    }
}

pub(crate) fn digit_of(c: char) -> (d: u32)
    requires
        is_digit(c),
    ensures
        d == digit_value(c),
        d < 10,
{
    (c as u32) - ('0' as u32)
}

fn char_of_digit(d: u64) -> (c: char)
    requires
        d < 10,
    ensures
        c == digit_char(d as int),
        is_digit(c),
        digit_value(c) == d,
{
    if d == 0 { '0' } else if d == 1 { '1' } else if d == 2 { '2' } else if d == 3 { '3' }
    else if d == 4 { '4' } else if d == 5 { '5' } else if d == 6 { '6' } else if d == 7 { '7' }
    else if d == 8 { '8' } else { '9' }
}

// ---------------------------------------------------------------------------
// Strings as character sequences
// ---------------------------------------------------------------------------

/// The characters of a string, in order.
pub fn chars_of(s: &str) -> (r: Vec<char>)
    ensures
        r@ == s@,
{
    let n = s.unicode_len();
    let mut r: Vec<char> = Vec::new();
    let mut i: usize = 0;
    while i < n
        invariant
            n == s@.len(),
            i <= n,
            r@ == s@.subrange(0, i as int),
        decreases n - i,
    {
        r.push(s.get_char(i));
        i = i + 1;
    }
    r
}

/// `String::push`: appends one character at the end of the string.
#[verifier::external_body]
fn push_char(s: &mut String, c: char)
    ensures
        final(s)@ == old(s)@.push(c),
{
    s.push(c);
}

/// The string made of the given characters.
pub fn string_from_chars(cs: &Vec<char>) -> (s: String)
    ensures
        s@ == cs@,
{
    let mut s = String::new();
    let mut i: usize = 0;
    while i < cs.len()
        invariant
            i <= cs.len(),
            s@ == cs@.subrange(0, i as int),
        decreases cs.len() - i,
    {
        push_char(&mut s, cs[i]);
        i = i + 1;
    }
    s
}

/// The string holding the single character `c`.
pub fn string_of_char(c: char) -> (s: String)
    ensures
        s@ == seq![c],
{
    let mut s = String::new();
    push_char(&mut s, c);
    s
}

/// The string `a` followed by `b`.
pub fn concat_str(a: &str, b: &str) -> (s: String)
    ensures
        s@ == a@ + b@,
{
    let mut v = chars_of(a);
    let w = chars_of(b);
    let mut i: usize = 0;
    while i < w.len()
        invariant
            i <= w.len(),
            v@ == a@ + w@.subrange(0, i as int),
        decreases w.len() - i,
    {
        v.push(w[i]);
        i = i + 1;
    }
    assert(w@.subrange(0, i as int) == w@);
    assert(w@ == b@);
    string_from_chars(&v)
}

// ---------------------------------------------------------------------------
// Decimal notation of integers
// ---------------------------------------------------------------------------

/// The decimal notation of a natural number, without leading zeros.
pub open spec fn decimal(n: nat) -> Seq<char>
    decreases n,
{
    if n < 10 {
        seq![digit_char(n as int)]
    } else {
        decimal(n / 10).push(digit_char((n % 10) as int))
    }
}

/// The decimal notation of an integer, with a leading `-` when it is negative.
pub open spec fn signed_decimal(i: int) -> Seq<char> {
    if i < 0 {
        seq!['-'] + decimal((-i) as nat)
    } else {
        decimal(i as nat)
    }
}

fn decimal_chars(n: u64) -> (r: Vec<char>)
    ensures
        r@ == decimal(n as nat),
    decreases n,
{
    if n < 10 {
        let mut v: Vec<char> = Vec::new();
        v.push(char_of_digit(n));
        v
    } else {
        let mut v = decimal_chars(n / 10);
        v.push(char_of_digit(n % 10));
        v
    }
}

/// The decimal notation of `n`, as `n.to_string()` writes it.
pub fn u64_to_string(n: u64) -> (s: String)
    ensures
        s@ == decimal(n as nat),
{
    let v = decimal_chars(n);
    string_from_chars(&v)
}

/// The decimal notation of `i`, as `i.to_string()` writes it.
pub fn i64_to_string(i: i64) -> (s: String)
    ensures
        s@ == signed_decimal(i as int),
{
    if i < 0 {
        let m: u64 = (0i128 - (i as i128)) as u64;
        let v = decimal_chars(m);
        let mut w: Vec<char> = Vec::new();
        w.push('-');
        let mut k: usize = 0;
        while k < v.len()
            invariant
                k <= v.len(),
                w@ == seq!['-'] + v@.subrange(0, k as int),
            decreases v.len() - k,
        {
            w.push(v[k]);
            k = k + 1;
        }
        assert(v@.subrange(0, v@.len() as int) == v@);
        string_from_chars(&w)
    } else {
        u64_to_string(i as u64)
    }
}


// ---------------------------------------------------------------------------
// Reading integers
// ---------------------------------------------------------------------------

/// What `str::parse::<i64>` would read, without the bound of the type: an optional
/// `+` or `-`, then one or more decimal digits, and nothing else.
pub open spec fn parse_int(s: Seq<char>) -> Option<int> {
    if s.len() > 0 && (s[0] == '-' || s[0] == '+') {
        let body = s.drop_first();
        if body.len() > 0 && all_digits(body) {
            if s[0] == '-' {
                Some(-digits_value(body))
            } else {
                Some(digits_value(body))
            }
        } else {
            None
        }
    } else if s.len() > 0 && all_digits(s) {
        Some(digits_value(s))
    } else {
        None
    }
}

proof fn lemma_digit_char(d: int)
    requires
        0 <= d < 10,
    ensures
        is_digit(digit_char(d)),
        digit_value(digit_char(d)) == d,
{
}

/// The decimal notation of a number is a non-empty run of digits that reads back as the
/// number.
pub proof fn law_decimal_reads_back(n: nat)
    ensures
        decimal(n).len() > 0,
        all_digits(decimal(n)),
        digits_value(decimal(n)) == n,
    decreases n,
{
    lemma_digit_char((n % 10) as int);
    if n >= 10 {
        law_decimal_reads_back(n / 10);
        let s = decimal(n);
        assert(s.drop_last() == decimal(n / 10));
        assert(s.last() == digit_char((n % 10) as int));
        assert(digits_value(s) == digits_value(decimal(n / 10)) * 10 + digit_value(s.last()));
        assert(n == (n / 10) * 10 + n % 10);
        assert forall|i: int| 0 <= i < s.len() implies #[trigger] is_digit(s[i]) by {
            if i < s.len() - 1 {
                assert(s[i] == decimal(n / 10)[i]);
            }
        }
    } else {
        let s = decimal(n);
        assert(s.drop_last() =~= Seq::<char>::empty());
        assert(digits_value(s) == digits_value(s.drop_last()) * 10 + digit_value(s.last()));
    }
}

/// What `str::parse::<i32>` returns: the value of `parse_int` when it fits in an `i32`.
pub open spec fn i32_parse(s: Seq<char>) -> Option<i32> {
    match parse_int(s) {
        Some(v) => if i32::MIN <= v && v <= i32::MAX {
            Some(v as i32)
        } else {
            None
        },
        None => None,
    }
}

/// A number that fits in an `i32`, written with `signed_decimal` (as `to_string` writes
/// it), reads back as itself with `parse::<i32>`.
pub proof fn law_signed_decimal_parses(v: int)
    requires
        i32::MIN <= v <= i32::MAX,
    ensures
        i32_parse(signed_decimal(v)) == Some(v as i32),
{
    let s = signed_decimal(v);
    if v < 0 {
        let d = decimal((-v) as nat);
        law_decimal_reads_back((-v) as nat);
        assert(s.drop_first() == d);
        assert(s[0] == '-');
    } else {
        law_decimal_reads_back(v as nat);
        assert(is_digit(s[0]));
    }
}

/// The outcome of reading a run of digits against a bound.
pub(crate) enum DigitRun {
    /// The run is empty or holds a character that is not a digit.
    NotDigits,
    /// All digits, and their value exceeds the bound.
    TooBig,
    /// All digits, with this value, which is within the bound.
    Value(u128),
}

/// Reads `cs[start..end]` as a run of decimal digits, and compares its value with `cap`.
pub(crate) fn read_digits(cs: &Vec<char>, start: usize, end: usize, cap: u128) -> (r: DigitRun)
    requires
        start <= end <= cs.len(),
    ensures
        ({
            let run = cs@.subrange(start as int, end as int);
            match r {
                DigitRun::NotDigits => !(all_digits(run) && run.len() > 0),
                DigitRun::TooBig => all_digits(run) && run.len() > 0 && digits_value(run) > cap,
                DigitRun::Value(v) => all_digits(run) && run.len() > 0 && v == digits_value(run)
                    && v <= cap,
            }
        }),
{
    let mut acc: u128 = 0;
    let mut big = false;
    let mut i = start;
    while i < end
        invariant
            start <= i <= end <= cs.len(),
            all_digits(cs@.subrange(start as int, i as int)),
            !big ==> acc == digits_value(cs@.subrange(start as int, i as int)) && acc <= cap,
            big ==> digits_value(cs@.subrange(start as int, i as int)) > cap,
        decreases end - i,
    {
        let c = cs[i];
        if !('0' <= c && c <= '9') {
            assert(!all_digits(cs@.subrange(start as int, end as int))) by {
                assert(cs@.subrange(start as int, end as int)[i - start] == c);
                assert(!is_digit(cs@.subrange(start as int, end as int)[i - start]));
            }
            return DigitRun::NotDigits;
        }
        let ghost prev = cs@.subrange(start as int, i as int);
        let ghost next = cs@.subrange(start as int, i + 1);
        assert(next.drop_last() == prev);
        assert(next.last() == c);
        assert(all_digits(next)) by {
            assert forall|j: int| 0 <= j < next.len() implies #[trigger] is_digit(next[j]) by {
                if j < prev.len() {
                    assert(next[j] == prev[j]);
                }
            }
        }
        let d = digit_of(c);
        if !big {
            match acc.checked_mul(10) {
                Some(m) => match m.checked_add(d as u128) {
                    Some(v) => {
                        if v > cap {
                            big = true;
                        } else {
                            acc = v;
                        }
                    },
                    None => {
                        big = true;
                    },
                },
                None => {
                    big = true;
                },
            }
        } else {
            assert(digits_value(next) >= digits_value(prev));
        }
        i = i + 1;
    }
    if i == start {
        DigitRun::NotDigits
    } else if big {
        DigitRun::TooBig
    } else {
        DigitRun::Value(acc)
    }
}

/// Reads a whole string as `str::parse::<i32>` does.
pub fn parse_i32(s: &str) -> (r: Option<i32>)
    ensures
        r == i32_parse(s@),
{
    let cs = chars_of(s);
    let n = cs.len();
    if n > 0 && (cs[0] == '-' || cs[0] == '+') {
        let neg = cs[0] == '-';
        assert(cs@.subrange(1, n as int) == s@.drop_first());
        match read_digits(&cs, 1, n, 2147483648) {
            DigitRun::NotDigits => None,
            DigitRun::TooBig => None,
            DigitRun::Value(v) => {
                if neg {
                    Some((0i64 - (v as i64)) as i32)
                } else if v <= 2147483647 {
                    Some(v as i32)
                } else {
                    None
                }
            },
        }
    } else {
        assert(cs@.subrange(0, n as int) == s@);
        match read_digits(&cs, 0, n, 2147483648) {
            DigitRun::NotDigits => None,
            DigitRun::TooBig => None,
            DigitRun::Value(v) => {
                if v <= 2147483647 {
                    Some(v as i32)
                } else {
                    None
                }
            },
        }
    }
}


/// What `str::parse::<u64>` returns: an optional `+`, then one or more decimal digits
/// whose value fits in a `u64`.
pub open spec fn u64_parse(s: Seq<char>) -> Option<u64> {
    let body = if s.len() > 0 && s[0] == '+' {
        s.drop_first()
    } else {
        s
    };
    if body.len() > 0 && all_digits(body) && digits_value(body) <= u64::MAX {
        Some(digits_value(body) as u64)
    } else {
        None
    }
}

/// Reads a whole string as `str::parse::<u64>` does.
pub fn parse_u64(s: &str) -> (r: Option<u64>)
    ensures
        r == u64_parse(s@),
{
    let cs = chars_of(s);
    let n = cs.len();
    let st: usize = if n > 0 && cs[0] == '+' { 1 } else { 0 };
    assert(st == 1 ==> cs@.subrange(1, n as int) == s@.drop_first());
    assert(st == 0 ==> cs@.subrange(0, n as int) == s@);
    match read_digits(&cs, st, n, 18446744073709551615) {
        DigitRun::NotDigits => None,
        DigitRun::TooBig => None,
        DigitRun::Value(v) => Some(v as u64),
    }
}

// ---------------------------------------------------------------------------
// Lower case, character codes, counting
// ---------------------------------------------------------------------------

/// What `str::to_lowercase` returns for a string: its lower case by the Unicode tables of
/// the standard library, where a character's mapping may depend on its neighbours (a
/// final sigma) and may give more than one character.
pub uninterp spec fn lowercase(s: Seq<char>) -> Seq<char>;

/// `str::to_lowercase`. Its result is `lowercase` of the argument; nothing more of the
/// Unicode mapping is stated.
#[verifier::external_body]
pub(crate) fn to_lowercase(s: &str) -> (r: String)
    ensures
        r@ == lowercase(s@),
{
    s.to_lowercase()
}

/// The code points of the characters, in order.
pub open spec fn char_codes(s: Seq<char>) -> Seq<i64> {
    s.map_values(|c: char| (c as u32) as i64)
}

/// The code points of the characters of `s`.
pub fn char_codes_of(s: &str) -> (r: Vec<i64>)
    ensures
        r@ == char_codes(s@),
{
    let cs = chars_of(s);
    let mut r: Vec<i64> = Vec::new();
    let mut i: usize = 0;
    while i < cs.len()
        invariant
            i <= cs.len(),
            cs@ == s@,
            r@ == char_codes(s@).subrange(0, i as int),
        decreases cs.len() - i,
    {
        r.push((cs[i] as u32) as i64);
        i = i + 1;
    }
    assert(char_codes(s@).subrange(0, i as int) =~= char_codes(s@));
    r
}

/// How many times `c` occurs in `s`.
pub open spec fn count_char(s: Seq<char>, c: char) -> nat
    decreases s.len(),
{
    if s.len() == 0 {
        0
    } else {
        count_char(s.drop_last(), c) + (if s.last() == c {
            1nat
        } else {
            0nat
        })
    }
}

pub proof fn lemma_count_char_le_len(s: Seq<char>, c: char)
    ensures
        count_char(s, c) <= s.len(),
    decreases s.len(),
{
    if s.len() > 0 {
        lemma_count_char_le_len(s.drop_last(), c);
    }
}

/// How many times `c` occurs in `s`.
pub fn count_char_in(s: &str, c: char) -> (k: usize)
    ensures
        k == count_char(s@, c),
{
    let cs = chars_of(s);
    let mut k: usize = 0;
    let mut i: usize = 0;
    while i < cs.len()
        invariant
            i <= cs.len(),
            cs@ == s@,
            k == count_char(cs@.subrange(0, i as int), c),
            k <= i,
        decreases cs.len() - i,
    {
        assert(cs@.subrange(0, i + 1).drop_last() == cs@.subrange(0, i as int));
        if cs[i] == c {
            k = k + 1;
        }
        i = i + 1;
    }
    assert(cs@.subrange(0, i as int) == cs@);
    k
}

/// Whether `s` begins with the character `c`, as `str::starts_with(c)` tells.
pub fn starts_with_char(s: &str, c: char) -> (r: bool)
    ensures
        r == (s@.len() > 0 && s@[0] == c),
{
    if s.unicode_len() == 0 {
        false
    } else {
        s.get_char(0) == c
    }
}

} // verus!
