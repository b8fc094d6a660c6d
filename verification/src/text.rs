//! Decimal numbers in text: reading them as `u32::from_str` does, writing them as
//! `Display` does.

use vstd::prelude::*;

verus! {

/// An ASCII decimal digit.
pub open spec fn is_digit(c: char) -> bool {
    '0' <= c <= '9'
}

/// The value of a string of decimal digits.
pub open spec fn digits_value(s: Seq<char>) -> int
    decreases s.len(),
{
    if s.len() == 0 {
        0
    } else {
        digits_value(s.drop_last()) * 10 + (s.last() as int - '0' as int)
    }
}

/// Every character is a digit.
pub open spec fn all_digits(s: Seq<char>) -> bool {
    forall|i: int| 0 <= i < s.len() ==> is_digit(#[trigger] s[i])
}

/// The text after an optional leading `+`.
pub open spec fn unsigned_body(s: Seq<char>) -> Seq<char> {
    if s.len() > 0 && s[0] == '+' { s.drop_first() } else { s }
}

/// What `u32::from_str` gives for `s`: an optional `+`, then at least one digit,
/// with a value that fits in `u32`.
pub open spec fn u32_of(s: Seq<char>) -> Option<u32> {
    let body = unsigned_body(s);
    if body.len() > 0 && all_digits(body) && digits_value(body) <= u32::MAX {
        Some(digits_value(body) as u32)
    } else {
        None
    }
}

/// The character of a digit value.
pub open spec fn digit_char(d: int) -> char {
    ('0' as int + d) as char
}

/// The decimal form of `n`, without leading zeros.
pub open spec fn decimal(n: nat) -> Seq<char>
    decreases n,
{
    if n < 10 {
        seq![digit_char(n as int)]
    } else {
        decimal(n / 10).push(digit_char((n % 10) as int))
    }
}

proof fn lemma_digits_value_nonneg(s: Seq<char>)
    requires
        forall|i: int| 0 <= i < s.len() ==> is_digit(#[trigger] s[i]),
    ensures
        digits_value(s) >= 0,
    decreases s.len(),
{
    if s.len() > 0 {
        lemma_digits_value_nonneg(s.drop_last());
    }
}

/// Why text is no `u32`, as `u32::from_str` reports it.
#[derive(Clone, Copy, Debug, PartialEq, Eq, Structural)]
pub enum NumberError {
    /// The text is empty.
    Empty,
    /// A character is no digit (a lone sign counts as one).
    InvalidDigit,
    /// The value does not fit in `u32`.
    PosOverflow,
}

/// Reading digits left to right from position `i` with `acc` read so far: the first
/// failure met, if any.
pub open spec fn scan_digits(s: Seq<char>, i: int, acc: int) -> Option<NumberError>
    decreases s.len() - i,
{
    if i < 0 || i >= s.len() {
        None
    } else if !is_digit(s[i]) {
        Some(NumberError::InvalidDigit)
    } else if acc * 10 + (s[i] as int - '0' as int) > u32::MAX {
        Some(NumberError::PosOverflow)
    } else {
        scan_digits(s, i + 1, acc * 10 + (s[i] as int - '0' as int))
    }
}

/// The error `u32::from_str` reports for text it refuses: empty text, else the
/// first failure met reading the digits after an optional `+`.
pub open spec fn number_error(s: Seq<char>) -> NumberError {
    if s.len() == 0 {
        NumberError::Empty
    } else {
        match scan_digits(unsigned_body(s), 0, 0) {
            Some(k) => k,
            None => NumberError::InvalidDigit,
        }
    }
}

/// Why `s` is no `u32` (meaningful where `parse_u32` refuses it).
pub fn why_not_u32(s: &Vec<char>) -> (r: NumberError)
    ensures
        r == number_error(s@),
{
    let n = s.len();
    if n == 0 {
        return NumberError::Empty;
    }
    let start: usize = if s[0] == '+' { 1 } else { 0 };
    let ghost body = unsigned_body(s@);
    assert(body =~= s@.subrange(start as int, n as int));
    let mut acc: u64 = 0;
    let mut i: usize = start;
    while i < n
        invariant
            start <= i <= n,
            n == s@.len(),
            n > 0,
            body == unsigned_body(s@),
            body =~= s@.subrange(start as int, n as int),
            acc <= u32::MAX,
            scan_digits(body, 0, 0) == scan_digits(body, i - start, acc as int),
        decreases n - i,
    {
        let c = s[i];
        assert(body[i - start] == c);
        if !('0' <= c && c <= '9') {
            return NumberError::InvalidDigit;
        }
        let d = (c as u64) - ('0' as u64);
        if acc * 10 + d > u32::MAX as u64 {
            return NumberError::PosOverflow;
        }
        acc = acc * 10 + d;
        i += 1;
    }
    NumberError::InvalidDigit
}

/// Reads a `u32` as `u32::from_str` does.
pub fn parse_u32(s: &Vec<char>) -> (r: Option<u32>)
    ensures
        r == u32_of(s@),
{
    let n = s.len();
    let start: usize = if n > 0 && s[0] == '+' { 1 } else { 0 };
    let ghost body = unsigned_body(s@);
    assert(body =~= s@.subrange(start as int, n as int));
    if start >= n {
        return None;
    }
    let mut value: u32 = 0;
    let mut i: usize = start;
    while i < n
        invariant
            start <= i <= n,
            n == s.len(),
            body =~= s@.subrange(start as int, n as int),
            body == unsigned_body(s@),
            forall|k: int| start <= k < i ==> is_digit(#[trigger] s@[k]),
            value == digits_value(s@.subrange(start as int, i as int)),
        decreases n - i,
    {
        let c = s[i];
        proof {
            assert(s@.subrange(start as int, i + 1).drop_last() =~= s@.subrange(start as int, i as int));
        }
        if !('0' <= c && c <= '9') {
            proof {
                assert(body[i - start] == s@[i as int]);
                assert(!is_digit(body[i - start]));
                assert(!all_digits(body));
            }
            return None;
        }
        let d = (c as u32) - ('0' as u32);
        if value > (u32::MAX - d) / 10 {
            proof {
                let tail = s@.subrange(start as int, n as int);
                lemma_prefix_value_bounds(tail, (i + 1 - start) as int);
                assert(s@.subrange(start as int, i + 1) =~= tail.take((i + 1 - start) as int));
                let m = u32::MAX as int;
                assert(value * 10 + d > m) by (nonlinear_arith)
                    requires
                        value > (m - d) / 10,
                        0 <= d <= 9,
                ;
                assert(digits_value(s@.subrange(start as int, i + 1)) == value * 10 + d);
                if all_digits(body) {
                    assert(digits_value(body) > m);
                }
            }
            return None;
        }
        value = value * 10 + d;
        i += 1;
    }
    proof {
        assert(s@.subrange(start as int, n as int) =~= body);
    }
    Some(value)
}

/// What `usize::from_str` gives for `s`: as for `u32`, with the bound of `usize`.
pub open spec fn usize_of(s: Seq<char>) -> Option<usize> {
    let body = unsigned_body(s);
    if body.len() > 0 && all_digits(body) && digits_value(body) <= usize::MAX {
        Some(digits_value(body) as usize)
    } else {
        None
    }
}

/// Reads a `usize` as `usize::from_str` does.
pub fn parse_usize(s: &Vec<char>) -> (r: Option<usize>)
    ensures
        r == usize_of(s@),
{
    let n = s.len();
    let start: usize = if n > 0 && s[0] == '+' { 1 } else { 0 };
    let ghost body = unsigned_body(s@);
    assert(body =~= s@.subrange(start as int, n as int));
    if start >= n {
        return None;
    }
    let mut value: usize = 0;
    let mut i: usize = start;
    while i < n
        invariant
            start <= i <= n,
            n == s.len(),
            body =~= s@.subrange(start as int, n as int),
            body == unsigned_body(s@),
            forall|k: int| start <= k < i ==> is_digit(#[trigger] s@[k]),
            value == digits_value(s@.subrange(start as int, i as int)),
        decreases n - i,
    {
        let c = s[i];
        proof {
            assert(s@.subrange(start as int, i + 1).drop_last() =~= s@.subrange(start as int, i as int));
        }
        if !('0' <= c && c <= '9') {
            proof {
                assert(body[i - start] == s@[i as int]);
                assert(!is_digit(body[i - start]));
                assert(!all_digits(body));
            }
            return None;
        }
        let d = (c as usize) - ('0' as usize);
        if value > (usize::MAX - d) / 10 {
            proof {
                let tail = s@.subrange(start as int, n as int);
                lemma_prefix_value_bounds(tail, (i + 1 - start) as int);
                assert(s@.subrange(start as int, i + 1) =~= tail.take((i + 1 - start) as int));
                let m = usize::MAX as int;
                assert(value * 10 + d > m) by (nonlinear_arith)
                    requires
                        value > (m - d) / 10,
                        0 <= d <= 9,
                ;
                assert(digits_value(s@.subrange(start as int, i + 1)) == value * 10 + d);
                if all_digits(body) {
                    assert(digits_value(body) > m);
                }
            }
            return None;
        }
        value = value * 10 + d;
        i += 1;
    }
    proof {
        assert(s@.subrange(start as int, n as int) =~= body);
    }
    Some(value)
}

/// When every character is a digit, a prefix never has a larger value than the whole.
proof fn lemma_prefix_value_bounds(s: Seq<char>, k: int)
    requires
        0 <= k <= s.len(),
    ensures
        (forall|i: int| 0 <= i < s.len() ==> is_digit(#[trigger] s[i])) ==> digits_value(s.take(k)) <= digits_value(s),
    decreases s.len() - k,
{
    if forall|i: int| 0 <= i < s.len() ==> is_digit(#[trigger] s[i]) {
        if k < s.len() {
            lemma_prefix_value_bounds(s, k + 1);
            assert(s.take(k + 1).drop_last() =~= s.take(k));
            let t = s.take(k);
            assert forall|i: int| 0 <= i < t.len() implies is_digit(#[trigger] t[i]) by {
                assert(t[i] == s[i]);
            }
            lemma_digits_value_nonneg(t);
            assert(is_digit(s[k]));
        } else {
            assert(s.take(k) =~= s);
        }
    }
}

/// Appends a character to a string.
#[verifier::external_body]
pub(crate) fn push_char(s: &mut String, c: char)
    ensures
        final(s)@ == old(s)@.push(c),
{
    s.push(c);
}

/// Appends the decimal form of `n`.
pub fn push_decimal(s: &mut String, n: u32)
    ensures
        final(s)@ == old(s)@ + decimal(n as nat),
    decreases n,
{
    if n >= 10 {
        push_decimal(s, n / 10);
    }
    let d = (n % 10) as u8;
    let c = (('0' as u8) + d) as char;
    push_char(s, c);
    proof {
        if n >= 10 {
            assert(decimal(n as nat) == decimal((n / 10) as nat).push(digit_char((n % 10) as int)));
        }
        assert(final(s)@ =~= old(s)@ + decimal(n as nat));
    }
}

/// Appends the decimal form of `n`.
pub fn push_decimal_wide(s: &mut String, n: u64)
    ensures
        final(s)@ == old(s)@ + decimal(n as nat),
    decreases n,
{
    if n >= 10 {
        push_decimal_wide(s, n / 10);
    }
    let d = (n % 10) as u8;
    let c = (('0' as u8) + d) as char;
    push_char(s, c);
    proof {
        if n >= 10 {
            assert(decimal(n as nat) == decimal((n / 10) as nat).push(digit_char((n % 10) as int)));
        }
        assert(final(s)@ =~= old(s)@ + decimal(n as nat));
    }
}

/// The characters of a string.
pub fn str_chars(s: &str) -> (r: Vec<char>)
    ensures
        r@ == s@,
{
    let n = s.unicode_len();
    let mut r = Vec::new();
    let mut i: usize = 0;
    while i < n
        invariant
            n == s@.len(),
            i <= n,
            r@ == s@.take(i as int),
        decreases n - i,
    {
        r.push(s.get_char(i));
        i += 1;
        assert(r@ =~= s@.take(i as int));
    }
    assert(s@.take(n as int) =~= s@);
    r
}

proof fn lemma_decimal_digits(n: nat)
    ensures
        decimal(n).len() > 0,
        all_digits(decimal(n)),
        digits_value(decimal(n)) == n,
    decreases n,
{
    let c = digit_char((n % 10) as int);
    assert(c as int - '0' as int == n % 10);
    if n >= 10 {
        lemma_decimal_digits(n / 10);
        let d = decimal(n / 10);
        assert(decimal(n).drop_last() =~= d);
        assert(decimal(n).last() == c);
        assert(digits_value(decimal(n)) == digits_value(d) * 10 + (c as int - '0' as int));
        assert((n / 10) * 10 + n % 10 == n);
        assert forall|i: int| 0 <= i < decimal(n).len() implies is_digit(#[trigger] decimal(n)[i]) by {
            if i < d.len() {
                assert(decimal(n)[i] == d[i]);
            }
        }
    } else {
        assert(decimal(n).drop_last() =~= Seq::<char>::empty());
        assert(digits_value(decimal(n)) == digits_value(Seq::<char>::empty()) * 10 + (c as int - '0' as int));
    }
}

/// Reading back what writing gives: the decimal form of a `u32` reads as that
/// number.
pub proof fn lemma_read_written(n: u32)
    ensures
        u32_of(decimal(n as nat)) == Some(n),
{
    lemma_decimal_digits(n as nat);
    assert(is_digit(decimal(n as nat)[0]));
    assert(unsigned_body(decimal(n as nat)) == decimal(n as nat));
}

} // verus!
