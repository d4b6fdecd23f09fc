//! Character-level rules for tokens: literals, wrappers and decimal text.

use vstd::prelude::*;
use vstd::string::{StrSliceExecFns, StringExecFns, StringSliceAdditionalSpecFns};

verus! {

/// Whether `c` is one of the ten decimal digits.
pub open spec fn is_digit(c: char) -> bool {
    '0' <= c && c <= '9'
}

/// The number a decimal digit stands for.
pub open spec fn digit_value(c: char) -> int {
    c as int - '0' as int
}

/// Whether every character of `s` is a decimal digit.
pub open spec fn all_digits(s: Seq<char>) -> bool {
    forall|i: int| 0 <= i < s.len() ==> is_digit(#[trigger] s[i])
}

/// The number that a run of decimal digits denotes, most significant digit first.
pub open spec fn decimal_value(digits: Seq<char>) -> int
    decreases digits.len(),
{
    if digits.len() == 0 {
        0
    } else {
        10 * decimal_value(digits.drop_last()) + digit_value(digits.last())
    }
}

/// Whether `token` starts with a `+` or `-` sign.
pub open spec fn has_sign(token: Seq<char>) -> bool {
    token.len() > 0 && (token[0] == '-' || token[0] == '+')
}

/// The value of `token` read as a signed 64-bit integer literal: an optional
/// sign, then one or more decimal digits and nothing else, denoting a number
/// within the 64-bit signed range. `None` for every other token.
pub open spec fn integer_literal(token: Seq<char>) -> Option<int> {
    let digits = if has_sign(token) {
        token.skip(1)
    } else {
        token
    };
    let magnitude = decimal_value(digits);
    let value = if has_sign(token) && token[0] == '-' {
        -magnitude
    } else {
        magnitude
    };
    if digits.len() > 0 && all_digits(digits) && i64::MIN <= value <= i64::MAX {
        Some(value)
    } else {
        None
    }
}

/// The value of `token` read as a boolean literal: exactly `true` or `false`.
pub open spec fn boolean_literal(token: Seq<char>) -> Option<bool> {
    if token == "true"@ {
        Some(true)
    } else if token == "false"@ {
        Some(false)
    } else {
        None
    }
}

/// What is left of `s` behind `prefix`, if `s` starts with it.
pub open spec fn without_prefix(s: Seq<char>, prefix: Seq<char>) -> Option<Seq<char>> {
    if prefix.is_prefix_of(s) {
        Some(s.skip(prefix.len() as int))
    } else {
        None
    }
}

/// What is left of `s` before `suffix`, if `s` ends with it.
pub open spec fn without_suffix(s: Seq<char>, suffix: Seq<char>) -> Option<Seq<char>> {
    if suffix.is_suffix_of(s) {
        Some(s.take(s.len() - suffix.len()))
    } else {
        None
    }
}

/// The inside of a token of the form `BigInt(<inner>)`; `None` for any other token.
pub open spec fn big_int_inner(token: Seq<char>) -> Option<Seq<char>> {
    match without_prefix(token, "BigInt("@) {
        Some(rest) => without_suffix(rest, ")"@),
        None => None,
    }
}

/// The text a token stands for: the inside of a big-integer wrapper, or the token itself.
pub open spec fn text_of(token: Seq<char>) -> Seq<char> {
    match big_int_inner(token) {
        Some(inner) => inner,
        None => token,
    }
}

/// The character for a digit value below ten.
pub open spec fn digit_char(d: int) -> char {
    ('0' as int + d) as char
}

/// The decimal digits of `n`, most significant first, without leading zeros.
pub open spec fn decimal_digits(n: nat) -> Seq<char>
    decreases n,
{
    if n < 10 {
        seq![digit_char(n as int)]
    } else {
        decimal_digits(n / 10).push(digit_char((n % 10) as int))
    }
}

/// The decimal text of `n`: a `-` for a negative number, then its digits.
pub open spec fn decimal_text(n: int) -> Seq<char> {
    if n < 0 {
        seq!['-'] + decimal_digits((-n) as nat)
    } else {
        decimal_digits(n as nat)
    }
}

/// Collects the characters of `s`, so that later scans index them in constant time.
pub fn chars_of(s: &str) -> (chars: Vec<char>)
    ensures
        chars@ == s@,
{
    let mut chars: Vec<char> = Vec::new();
    for c in it: s.chars()
        invariant
            it.seq() == s@,
            chars@ == s@.take(it.index() as int),
    {
        chars.push(c);
    }
    chars
}

/// Whether two strings hold the same characters.
pub fn same_text(a: &str, b: &str) -> (same: bool)
    ensures
        same == (a@ == b@),
{
    let x = a.as_bytes();
    let y = b.as_bytes();
    proof {
        // Equal encodings decode to equal texts.
        vstd::utf8::encode_utf8_decode_utf8(a@);
        vstd::utf8::encode_utf8_decode_utf8(b@);
    }
    if x.len() != y.len() {
        return false;
    }
    let mut i: usize = 0;
    while i < x.len()
        invariant
            i <= x.len(),
            x.len() == y.len(),
            x@ == a.spec_bytes(),
            y@ == b.spec_bytes(),
            forall|j: int| 0 <= j < i ==> x@[j] == y@[j],
        decreases x.len() - i,
    {
        if x[i] != y[i] {
            return false;
        }
        i += 1;
    }
    assert(x@ =~= y@);
    true
}

/// A prefix of an all-digit run never denotes more than the whole run.
pub proof fn lemma_decimal_value_grows(digits: Seq<char>, k: int)
    requires
        all_digits(digits),
        0 <= k <= digits.len(),
    ensures
        0 <= decimal_value(digits.take(k)) <= decimal_value(digits),
    decreases digits.len(),
{
    if digits.len() == 0 {
        assert(digits.take(k) =~= digits);
    } else if k == digits.len() {
        assert(digits.take(k) =~= digits);
        lemma_decimal_value_grows(digits.drop_last(), k - 1);
        assert(digits.drop_last().take(k - 1) =~= digits.drop_last());
        assert(is_digit(digits.last()));
    } else {
        lemma_decimal_value_grows(digits.drop_last(), k);
        assert(digits.drop_last().take(k) =~= digits.take(k));
        assert(is_digit(digits.last()));
    }
}

/// Reads `token` as a signed 64-bit integer literal.
pub fn parse_integer(token: &str) -> (value: Option<i64>)
    ensures
        match value {
            Some(n) => integer_literal(token@) == Some(n as int),
            None => integer_literal(token@) is None,
        },
{
    let chars = chars_of(token);
    let n = chars.len();
    if n == 0 {
        return None;
    }
    let negative = chars[0] == '-';
    let start: usize = if chars[0] == '-' || chars[0] == '+' {
        1
    } else {
        0
    };
    let ghost digits = if has_sign(token@) {
        token@.skip(1)
    } else {
        token@
    };
    assert(digits =~= chars@.skip(start as int));
    if start == n {
        return None;
    }
    let limit: u64 = if negative {
        0x8000_0000_0000_0000
    } else {
        0x7fff_ffff_ffff_ffff
    };
    let mut magnitude: u64 = 0;
    let mut i: usize = start;
    assert(digits.take(0) =~= Seq::<char>::empty());
    while i < n
        invariant
            start <= i <= n,
            n == chars.len(),
            digits == chars@.skip(start as int),
            digits == if has_sign(token@) {
                token@.skip(1)
            } else {
                token@
            },
            negative == (has_sign(token@) && token@[0] == '-'),
            limit == if negative {
                0x8000_0000_0000_0000u64
            } else {
                0x7fff_ffff_ffff_ffffu64
            },
            forall|j: int| 0 <= j < i - start ==> is_digit(#[trigger] digits[j]),
            magnitude == decimal_value(digits.take(i - start)),
            magnitude <= limit,
        decreases n - i,
    {
        let c = chars[i];
        if !('0' <= c && c <= '9') {
            assert(!is_digit(digits[i - start]));
            return None;
        }
        let d: u64 = (c as u32 - '0' as u32) as u64;
        let ghost longer = digits.take(i - start + 1);
        assert(longer.drop_last() =~= digits.take(i - start));
        assert(longer.last() == c);
        assert(decimal_value(longer) == 10 * magnitude + d);
        if magnitude > (limit - d) / 10 {
            proof {
                if all_digits(digits) {
                    lemma_decimal_value_grows(digits, i - start + 1);
                }
            }
            return None;
        }
        magnitude = magnitude * 10 + d;
        i += 1;
    }
    assert(digits.take(n - start) =~= digits);
    if negative {
        if magnitude == 0x8000_0000_0000_0000 {
            Some(i64::MIN)
        } else {
            Some(-(magnitude as i64))
        }
    } else {
        Some(magnitude as i64)
    }
}

/// Reads `token` as a boolean literal.
pub fn parse_boolean(token: &str) -> (value: Option<bool>)
    ensures
        value == boolean_literal(token@),
{
    if same_text(token, "true") {
        Some(true)
    } else if same_text(token, "false") {
        Some(false)
    } else {
        None
    }
}

/// Removes `prefix` from the front of `s`, if `s` starts with it.
pub fn strip_prefix<'a>(s: &'a str, prefix: &str) -> (rest: Option<&'a str>)
    ensures
        match rest {
            Some(r) => without_prefix(s@, prefix@) == Some(r@),
            None => without_prefix(s@, prefix@) is None,
        },
{
    let chars = chars_of(s);
    let wanted = chars_of(prefix);
    if wanted.len() > chars.len() {
        return None;
    }
    let mut i: usize = 0;
    while i < wanted.len()
        invariant
            i <= wanted.len() <= chars.len(),
            chars@ == s@,
            wanted@ == prefix@,
            forall|j: int| 0 <= j < i ==> chars@[j] == wanted@[j],
        decreases wanted.len() - i,
    {
        if chars[i] != wanted[i] {
            assert(s@.subrange(0, prefix@.len() as int)[i as int] != prefix@[i as int]);
            return None;
        }
        i += 1;
    }
    assert(prefix@ =~= s@.subrange(0, prefix@.len() as int));
    let rest = s.substring_char(wanted.len(), chars.len());
    assert(rest@ =~= s@.skip(prefix@.len() as int));
    Some(rest)
}

/// Removes `suffix` from the end of `s`, if `s` ends with it.
pub fn strip_suffix<'a>(s: &'a str, suffix: &str) -> (rest: Option<&'a str>)
    ensures
        match rest {
            Some(r) => without_suffix(s@, suffix@) == Some(r@),
            None => without_suffix(s@, suffix@) is None,
        },
{
    let chars = chars_of(s);
    let wanted = chars_of(suffix);
    if wanted.len() > chars.len() {
        return None;
    }
    let offset = chars.len() - wanted.len();
    let mut i: usize = 0;
    while i < wanted.len()
        invariant
            i <= wanted.len() <= chars.len(),
            offset == chars.len() - wanted.len(),
            chars@ == s@,
            wanted@ == suffix@,
            forall|j: int| 0 <= j < i ==> chars@[offset + j] == wanted@[j],
        decreases wanted.len() - i,
    {
        if chars[offset + i] != wanted[i] {
            assert(s@.subrange(s@.len() - suffix@.len(), s@.len() as int)[i as int]
                != suffix@[i as int]);
            return None;
        }
        i += 1;
    }
    assert(suffix@ =~= s@.subrange(s@.len() - suffix@.len(), s@.len() as int));
    let rest = s.substring_char(0, offset);
    assert(rest@ =~= s@.take(s@.len() - suffix@.len()));
    Some(rest)
}

/// The text a token stands for: a token of the form `BigInt(<inner>)` gives
/// `<inner>`, any other token gives itself.
pub fn unwrap_big_int<'a>(token: &'a str) -> (text: &'a str)
    ensures
        text@ == text_of(token@),
{
    match strip_prefix(token, "BigInt(") {
        Some(rest) => match strip_suffix(rest, ")") {
            Some(inner) => inner,
            None => token,
        },
        None => token,
    }
}

/// The one-character text of a digit value.
fn digit_text(d: u64) -> (text: &'static str)
    requires
        d < 10,
    ensures
        text@ == seq![digit_char(d as int)],
{
    proof {
        reveal_strlit("0");
        reveal_strlit("1");
        reveal_strlit("2");
        reveal_strlit("3");
        reveal_strlit("4");
        reveal_strlit("5");
        reveal_strlit("6");
        reveal_strlit("7");
        reveal_strlit("8");
        reveal_strlit("9");
    }
    let text = match d {
        0 => "0",
        1 => "1",
        2 => "2",
        3 => "3",
        4 => "4",
        5 => "5",
        6 => "6",
        7 => "7",
        8 => "8",
        _ => "9",
    };
    assert(text@ =~= seq![digit_char(d as int)]);
    text
}

/// The digits that `low` holds least significant first, in reading order.
spec fn digits_in_reading_order(low: Seq<u64>) -> Seq<char> {
    Seq::new(low.len(), |k: int| digit_char(low[low.len() - 1 - k] as int))
}

/// Writes `n` in decimal: a `-` for a negative number, then its digits
/// without leading zeros.
pub fn format_decimal(n: i64) -> (text: String)
    ensures
        text@ == decimal_text(n as int),
{
    let whole: u64 = if n < 0 {
        (0 - n as i128) as u64
    } else {
        n as u64
    };
    let mut magnitude: u64 = whole;
    let mut low: Vec<u64> = Vec::new();
    assert(digits_in_reading_order(low@) =~= Seq::<char>::empty());
    while magnitude >= 10
        invariant
            decimal_digits(whole as nat) == decimal_digits(magnitude as nat)
                + digits_in_reading_order(low@),
            forall|k: int| 0 <= k < low.len() ==> low@[k] < 10,
        decreases magnitude,
    {
        let ghost before = low@;
        low.push(magnitude % 10);
        assert(digits_in_reading_order(low@) =~= seq![digit_char((magnitude % 10) as int)]
            + digits_in_reading_order(before));
        assert(decimal_digits(magnitude as nat) =~= decimal_digits((magnitude / 10) as nat).push(
            digit_char((magnitude % 10) as int),
        ));
        magnitude = magnitude / 10;
    }
    let mut text = String::new();
    if n < 0 {
        proof {
            reveal_strlit("-");
        }
        text.append("-");
    }
    let ghost sign = text@;
    assert(sign =~= if n < 0 {
        seq!['-']
    } else {
        Seq::<char>::empty()
    });
    text.append(digit_text(magnitude));
    let mut i: usize = low.len();
    while i > 0
        invariant
            i <= low.len(),
            magnitude < 10,
            forall|k: int| 0 <= k < low.len() ==> low@[k] < 10,
            text@ == sign + decimal_digits(magnitude as nat) + digits_in_reading_order(
                low@,
            ).take(low.len() - i),
        decreases i,
    {
        i -= 1;
        let ghost before = text@;
        text.append(digit_text(low[i]));
        assert(digits_in_reading_order(low@).take(low.len() - i) =~= digits_in_reading_order(
            low@,
        ).take(low.len() - i - 1).push(digit_char(low@[i as int] as int)));
    }
    assert(digits_in_reading_order(low@).take(low.len() as int) =~= digits_in_reading_order(low@));
    assert(text@ =~= sign + decimal_digits(whole as nat));
    text
}

/// No token is both an integer literal and a boolean literal, so the order
/// in which the two are tried cannot change what a token is read as.
pub proof fn lemma_literals_are_disjoint(token: Seq<char>)
    ensures
        integer_literal(token) is Some ==> boolean_literal(token) is None,
{
    reveal_strlit("true");
    reveal_strlit("false");
    if token == "true"@ || token == "false"@ {
        assert(!has_sign(token));
        assert(!is_digit(token[0]));
    }
}

/// An integer literal is never a big-integer wrapper: read as text it stays as it is.
pub proof fn lemma_integer_literal_is_plain_text(token: Seq<char>)
    requires
        integer_literal(token) is Some,
    ensures
        text_of(token) == token,
{
    reveal_strlit("BigInt(");
    let prefix = "BigInt("@;
    if prefix.is_prefix_of(token) {
        assert(token.subrange(0, prefix.len() as int)[0] == prefix[0]);
        assert(token[0] == 'B');
        assert(!has_sign(token));
        assert(!is_digit(token[0]));
    }
}

/// Whatever stands inside a big-integer wrapper is what the wrapped token
/// reads as text, character for character.
pub proof fn lemma_big_int_unwrapped(inner: Seq<char>)
    ensures
        big_int_inner("BigInt("@ + inner + ")"@) == Some(inner),
        text_of("BigInt("@ + inner + ")"@) == inner,
{
    let prefix = "BigInt("@;
    let suffix = ")"@;
    let token = prefix + inner + suffix;
    assert(prefix =~= token.subrange(0, prefix.len() as int));
    let rest = token.skip(prefix.len() as int);
    assert(rest =~= inner + suffix);
    assert(suffix =~= rest.subrange(rest.len() - suffix.len(), rest.len() as int));
    assert(rest.take(rest.len() - suffix.len()) =~= inner);
}

/// The digits written for a number are digits, and denote that number.
pub proof fn lemma_decimal_digits_denote(n: nat)
    ensures
        decimal_digits(n).len() > 0,
        all_digits(decimal_digits(n)),
        decimal_value(decimal_digits(n)) == n,
    decreases n,
{
    if n < 10 {
        let digits = decimal_digits(n);
        assert(digits.drop_last() =~= Seq::<char>::empty());
        assert(decimal_value(digits.drop_last()) == 0);
    } else {
        lemma_decimal_digits_denote(n / 10);
        let front = decimal_digits(n / 10);
        let digits = decimal_digits(n);
        assert(digits.drop_last() =~= front);
        assert(digits.last() == digit_char((n % 10) as int));
        assert forall|i: int| 0 <= i < digits.len() implies is_digit(#[trigger] digits[i]) by {
            if i < front.len() {
                assert(digits[i] == front[i]);
            }
        }
    }
}

/// Writing a 64-bit integer in decimal and reading the text back as an
/// integer literal gives the integer again.
pub proof fn lemma_decimal_text_reads_back(n: int)
    requires
        i64::MIN <= n <= i64::MAX,
    ensures
        integer_literal(decimal_text(n)) == Some(n),
{
    let token = decimal_text(n);
    if n < 0 {
        let digits = decimal_digits((-n) as nat);
        lemma_decimal_digits_denote((-n) as nat);
        assert(token[0] == '-');
        assert(token.skip(1) =~= digits);
    } else {
        lemma_decimal_digits_denote(n as nat);
        assert(is_digit(token[0]));
    }
}

} // verus!
