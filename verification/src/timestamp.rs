use vstd::prelude::*;
use vstd::string::StrSliceExecFns;

verus! {

/// The pattern that picks the seconds out of the `Debug` text of a
/// `std::time::SystemTime` on Unix (`SystemTime { tv_sec: .., tv_nsec: .. }`).
pub const SECONDS_PATTERN: &'static str = "tv_sec: ([0-9]+), tv_nsec";

/// What `regex` gives for `haystack`: the text that capture group `group` of
/// the leftmost-first match of `pattern` covers, or `None` when the pattern
/// does not compile, nothing matches, or the group takes no part in the match.
pub uninterp spec fn regex_capture(pattern: Seq<char>, haystack: Seq<char>, group: nat) -> Option<
    Seq<char>,
>;

/// Compiles `pattern` with `regex::Regex::new`, runs `Regex::captures` on
/// `haystack` and takes group `group`. The result is the named one.
#[verifier::external_body]
fn regex_capture_group(pattern: &str, haystack: &str, group: usize) -> (r: Option<String>)
    ensures
        r is Some <==> regex_capture(pattern@, haystack@, group as nat) is Some,
        r matches Some(s) ==> regex_capture(pattern@, haystack@, group as nat) == Some(s@),
{
    let re = regex::Regex::new(pattern).ok()?;
    let caps = re.captures(haystack)?;
    caps.get(group).map(|m| m.as_str().to_string())
}

/// An ASCII decimal digit.
pub open spec fn is_digit(c: char) -> bool {
    '0' <= c && c <= '9'
}

/// The value of a string of decimal digits.
pub open spec fn digits_value(s: Seq<char>) -> int
    decreases s.len(),
{
    if s.len() == 0 {
        0
    } else {
        digits_value(s.drop_last()) * 10 + (s.last() as int - '0' as int)
    }
}

/// Every character of `s` is a decimal digit.
pub open spec fn all_digits(s: Seq<char>) -> bool {
    forall|i: int| 0 <= i < s.len() ==> is_digit(#[trigger] s[i])
}

/// `s` without its leading `+` or `-`, where it has one.
pub open spec fn unsigned_part(s: Seq<char>) -> Seq<char> {
    if s.len() > 0 && (s[0] == '+' || s[0] == '-') {
        s.drop_first()
    } else {
        s
    }
}

/// What `i32::from_str` accepts: an optional `+` or `-`, then one or more
/// decimal digits and nothing else, whose value fits in an `i32`.
pub open spec fn spec_parse_i32(s: Seq<char>) -> Option<i32> {
    let digits = unsigned_part(s);
    let magnitude = digits_value(digits);
    let value = if s.len() > 0 && s[0] == '-' {
        -magnitude
    } else {
        magnitude
    };
    if digits.len() > 0 && all_digits(digits) && i32::MIN <= value <= i32::MAX {
        Some(value as i32)
    } else {
        None
    }
}

/// A longer run of digits is worth at least as much as its start.
proof fn lemma_digits_value_grows(s: Seq<char>, j: int, k: int)
    requires
        0 <= j <= k <= s.len(),
        forall|i: int| 0 <= i < s.len() ==> is_digit(#[trigger] s[i]),
    ensures
        digits_value(s.subrange(0, j)) <= digits_value(s.subrange(0, k)),
    decreases k - j,
{
    if j < k {
        lemma_digits_value_grows(s, j, k - 1);
        assert(s.subrange(0, k).drop_last() =~= s.subrange(0, k - 1));
        assert(is_digit(s[k - 1]));
        assert(digits_value(s.subrange(0, k - 1)) >= 0) by {
            lemma_digits_value_nonnegative(s.subrange(0, k - 1));
        }
    }
}

/// Digits are worth nothing below zero.
proof fn lemma_digits_value_nonnegative(s: Seq<char>)
    requires
        forall|i: int| 0 <= i < s.len() ==> is_digit(#[trigger] s[i]),
    ensures
        digits_value(s) >= 0,
    decreases s.len(),
{
    if s.len() > 0 {
        lemma_digits_value_nonnegative(s.drop_last());
        assert(is_digit(s[s.len() - 1]));
    }
}

/// Reads a decimal `i32` as `str::parse::<i32>` (`i32::from_str`) does: an
/// optional `+` or `-`, then one or more digits and nothing else, whose value
/// fits in an `i32`.
fn parse_i32(s: &str) -> (r: Option<i32>)
    ensures
        r == spec_parse_i32(s@),
{
    let n = s.unicode_len();
    if n == 0 {
        return None;
    }
    let first = s.get_char(0);
    let negative = first == '-';
    let start: usize = if first == '+' || first == '-' {
        1
    } else {
        0
    };
    let ghost digits = unsigned_part(s@);
    assert(digits =~= s@.subrange(start as int, n as int));
    if start == n {
        return None;
    }
    let mut value: i64 = 0;
    let mut i: usize = start;
    assert(digits.subrange(0, 0) =~= Seq::<char>::empty());
    while i < n
        invariant
            start <= i <= n,
            n == s@.len(),
            start < n,
            digits == s@.subrange(start as int, n as int),
            digits == unsigned_part(s@),
            negative == (s@[0] == '-'),
            forall|j: int| 0 <= j < i - start ==> is_digit(#[trigger] digits[j]),
            value == digits_value(digits.subrange(0, i - start)),
            0 <= value <= 2147483648,
        decreases n - i,
    {
        let c = s.get_char(i);
        assert(digits[i - start] == c);
        let code = c as u32;
        if code < 48 || code > 57 {
            proof {
                assert(!is_digit(digits[i - start]));
            }
            return None;
        }
        let next = value * 10 + (code - 48) as i64;
        assert(digits.subrange(0, i + 1 - start).drop_last() =~= digits.subrange(0, i - start));
        assert(next == digits_value(digits.subrange(0, i + 1 - start)));
        if next > 2147483648 {
            proof {
                if all_digits(digits) {
                    lemma_digits_value_grows(digits, i + 1 - start, digits.len() as int);
                    assert(digits.subrange(0, digits.len() as int) =~= digits);
                }
            }
            return None;
        }
        value = next;
        i = i + 1;
    }
    assert(digits.subrange(0, n - start) =~= digits);
    if negative {
        Some((-value) as i32)
    } else if value > 2147483647 {
        None
    } else {
        Some(value as i32)
    }
}

/// The seconds that the `Debug` text of a `SystemTime` shows, as the
/// `tv_sec` field read with `SECONDS_PATTERN`.
pub open spec fn spec_seconds_of_time_text(text: Seq<char>) -> Option<i32> {
    match regex_capture(SECONDS_PATTERN@, text, 1) {
        Some(digits) => spec_parse_i32(digits),
        None => None,
    }
}

/// Reads the seconds out of the `Debug` text of a `SystemTime`. `None` where
/// the text holds no `tv_sec` field or its value does not fit an `i32`.
pub fn i32_of_systemtime_text(text: &str) -> (r: Option<i32>)
    ensures
        r == spec_seconds_of_time_text(text@),
{
    match regex_capture_group(SECONDS_PATTERN, text, 1) {
        Some(digits) => parse_i32(digits.as_str()),
        None => None,
    }
}

} // verus!
