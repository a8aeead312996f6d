//! How the proxy is set up: the values of its environment variables, and what
//! stands in for those that are not set.

use crate::text::{chars_of, decimal, str_eq};
use vstd::prelude::*;
use vstd::string::StringExecFns;

verus! {

/// The address that the proxy listens on.
pub const DEFAULT_HOST: &'static str = "127.0.0.1";

/// The port that the proxy listens on.
pub const DEFAULT_PORT: &'static str = "8898";

/// The address of the model server.
pub const DEFAULT_UPSTREAM_HOST: &'static str = "127.0.0.1";

/// The port of the model server.
pub const DEFAULT_UPSTREAM_PORT: &'static str = "8901";

/// The least number of words of a step.
pub const DEFAULT_MIN_STEP_WORDS: usize = 15;

/// The model that Messages API requests are served by.
pub const DEFAULT_MODEL_NAME: &'static str = "qwen3.6-35b-a3b-gpu";

/// The value of a setting: what was given, unless that is nothing or empty.
pub open spec fn chosen(given: Option<Seq<char>>, fallback: Seq<char>) -> Seq<char> {
    match given {
        Some(value) => if value.len() == 0 {
            fallback
        } else {
            value
        },
        None => fallback,
    }
}

/// The number that a run of decimal digits stands for, if it is one.
pub open spec fn digits_value(digits: Seq<char>) -> Option<nat>
    decreases digits.len(),
{
    if digits.len() == 0 {
        Some(0)
    } else {
        match digits_value(digits.drop_last()) {
            Some(n) => if '0' <= digits.last() <= '9' {
                Some(10 * n + (digits.last() as nat - '0' as nat) as nat)
            } else {
                None
            },
            None => None,
        }
    }
}

/// A text without the plus sign in front, if it has one there.
pub open spec fn without_plus(text: Seq<char>) -> Seq<char> {
    if text.len() > 0 && text[0] == '+' {
        text.skip(1)
    } else {
        text
    }
}

/// The number that a text stands for: decimal digits, at least one, with or
/// without a plus sign in front, of a value that fits.
pub open spec fn number(text: Seq<char>) -> Option<usize> {
    let digits = without_plus(text);
    match digits_value(digits) {
        Some(n) => if digits.len() > 0 && n <= usize::MAX {
            Some(n as usize)
        } else {
            None
        },
        None => None,
    }
}

/// The optional characters of an optional text.
pub open spec fn given_view(given: Option<String>) -> Option<Seq<char>> {
    match given {
        Some(value) => Some(value@),
        None => None,
    }
}

/// What was given for a setting, unless that is nothing or empty.
pub fn env_or(given: Option<String>, fallback: &str) -> (value: String)
    ensures
        value@ == chosen(given_view(given), fallback@),
{
    match given {
        Some(value) => if value.as_str().is_empty() {
            fallback.to_owned()
        } else {
            value
        },
        None => fallback.to_owned(),
    }
}

/// The number that a text stands for.
pub fn parse_number(text: &str) -> (n: Option<usize>)
    ensures
        n == number(text@),
{
    let chars = chars_of(text);
    let start: usize = if chars.len() > 0 && chars[0] == '+' {
        1
    } else {
        0
    };
    let ghost digits = without_plus(text@);
    assert(digits =~= chars@.skip(start as int));
    let mut value: usize = 0;
    let mut fits = true;
    let mut i: usize = start;
    assert(digits.take(0) =~= Seq::empty());
    while i < chars.len()
        invariant
            start <= i <= chars@.len(),
            digits == without_plus(text@),
            digits == chars@.skip(start as int),
            match digits_value(digits.take(i - start)) {
                Some(n) => if fits {
                    n == value
                } else {
                    n > usize::MAX
                },
                None => false,
            },
        decreases chars@.len() - i,
    {
        let c = chars[i];
        let ghost next = digits.take(i + 1 - start);
        assert(next.drop_last() =~= digits.take(i - start));
        assert(next.last() == c);
        if c < '0' || c > '9' {
            proof {
                lemma_bad_digit_spoils(digits, i - start);
            }
            return None;
        }
        let digit: u32 = c as u32 - '0' as u32;
        if fits {
            let wide: u128 = 10 * (value as u128) + digit as u128;
            if wide <= usize::MAX as u128 {
                value = wide as usize;
            } else {
                fits = false;
            }
        }
        i += 1;
    }
    assert(digits.take(i - start) =~= digits);
    if i == start || !fits {
        return None;
    }
    Some(value)
}

/// A text with a character that is no digit is no number.
proof fn lemma_bad_digit_spoils(digits: Seq<char>, i: int)
    requires
        0 <= i < digits.len(),
        !('0' <= digits[i] <= '9'),
    ensures
        digits_value(digits) is None,
    decreases digits.len(),
{
    if i < digits.len() - 1 {
        lemma_bad_digit_spoils(digits.drop_last(), i);
    }
}

/// The value of a numeric setting: what was given, if that is a number.
pub open spec fn chosen_number(given: Option<Seq<char>>, fallback: usize) -> usize {
    match given {
        Some(text) => match number(text) {
            Some(n) => n,
            None => fallback,
        },
        None => fallback,
    }
}

/// What was given for a numeric setting, if that is a number.
pub fn env_or_usize(given: Option<String>, fallback: usize) -> (value: usize)
    ensures
        value == chosen_number(given_view(given), fallback),
{
    match given {
        Some(text) => match parse_number(text.as_str()) {
            Some(n) => n,
            None => fallback,
        },
        None => fallback,
    }
}

/// Is every step to be logged? Only the value "1" says so.
pub fn is_verbose(given: Option<String>) -> (verbose: bool)
    ensures
        verbose == (chosen(given_view(given), "0"@) == "1"@),
{
    str_eq(env_or(given, "0").as_str(), "1")
}

/// The address that a host and a port make.
pub fn address(host: &str, port: &str) -> (addr: String)
    ensures
        addr@ == host@ + ":"@ + port@,
{
    host.to_owned().concat(":").concat(port)
}

/// The base of the model server's URLs.
pub fn upstream_base(host: &str, port: &str) -> (base: String)
    ensures
        base@ == "http://"@ + host@ + ":"@ + port@,
{
    "http://".to_owned().concat(host).concat(":").concat(port)
}

/// A number written out in decimal is read back.
pub proof fn law_numbers_are_read_back(n: nat)
    requires
        n <= usize::MAX,
    ensures
        number(decimal(n)) == Some(n as usize),
{
    lemma_decimal_reads_back(n);
    assert(decimal(n)[0] != '+') by {
        if decimal(n)[0] == '+' {
            lemma_bad_digit_spoils(decimal(n), 0);
        }
    }
}

/// The digits of a number stand for it.
proof fn lemma_decimal_reads_back(n: nat)
    ensures
        digits_value(decimal(n)) == Some(n),
        decimal(n).len() > 0,
    decreases n,
{
    reveal_with_fuel(digits_value, 2);
    if n >= 10 {
        lemma_decimal_reads_back(n / 10);
        assert(decimal(n).drop_last() =~= decimal(n / 10));
    } else {
        assert(decimal(n).drop_last() =~= Seq::empty());
    }
}

/// A setting has the value that was given for it, whatever that is, and the fallback
/// exactly where nothing was given or nothing is in it.
pub proof fn law_settings_are_what_is_given(value: Seq<char>, fallback: Seq<char>)
    ensures
        value.len() > 0 ==> chosen(Some(value), fallback) == value,
        value.len() == 0 ==> chosen(Some(value), fallback) == fallback,
        chosen(None, fallback) == fallback,
{
}

/// A numeric setting has the number that was given for it, and the fallback exactly where
/// none was.
pub proof fn law_numeric_settings_are_what_is_given(text: Seq<char>, n: usize, fallback: usize)
    ensures
        number(text) == Some(n) ==> chosen_number(Some(text), fallback) == n,
        number(text) is None ==> chosen_number(Some(text), fallback) == fallback,
        chosen_number(None, fallback) == fallback,
{
}

/// One more digit makes ten times the number and that digit, as long as this fits; a plus
/// sign in front changes nothing; and what holds any other character, or no digit at all,
/// is no number.
pub proof fn law_numbers_are_decimal(text: Seq<char>, d: nat, n: usize, i: int)
    requires
        d < 10,
    ensures
        number(Seq::empty()) is None,
        number(seq!['+']) is None,
        number(seq![crate::text::digit(d)]) == Some(d as usize),
        number(text) == Some(n) ==> number(text.push(crate::text::digit(d))) == if 10 * n + d
            <= usize::MAX {
            Some((10 * n + d) as usize)
        } else {
            None
        },
        text.len() > 0 && text[0] != '+' ==> number(seq!['+'] + text) == number(text),
        0 <= i < text.len() && !('0' <= text[i] <= '9') && (i > 0 || text[i] != '+') ==> number(
            text,
        ) is None,
{
    let c = crate::text::digit(d);
    assert('0' <= c <= '9' && c as nat - '0' as nat == d);
    reveal_with_fuel(digits_value, 2);
    assert(seq![c].drop_last() =~= Seq::empty());
    assert(without_plus(seq!['+']) =~= Seq::empty());
    assert(without_plus(seq![c]) =~= seq![c]);
    if number(text) == Some(n) {
        let more = text.push(c);
        assert(without_plus(more) =~= without_plus(text).push(c));
        assert(without_plus(more).drop_last() =~= without_plus(text));
    }
    if text.len() > 0 && text[0] != '+' {
        assert(without_plus(seq!['+'] + text) =~= text);
    }
    if 0 <= i < text.len() && !('0' <= text[i] <= '9') && (i > 0 || text[i] != '+') {
        let digits = without_plus(text);
        let j = if text[0] == '+' {
            i - 1
        } else {
            i
        };
        assert(digits[j] == text[i]);
        lemma_bad_digit_spoils(digits, j);
    }
}

} // verus!
