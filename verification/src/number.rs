//! Unsigned numbers as decimal text, both ways.

use vstd::prelude::*;
use vstd::string::*;
use crate::text::chars_of;

verus! {

/// The character of a decimal digit.
pub open spec fn digit_char(d: nat) -> char {
    (48 + d) as char
}

/// Whether a character is one of `0` to `9`.
pub open spec fn is_digit(c: char) -> bool {
    48 <= c as int <= 57
}

/// `n` in decimal, without leading zeros.
pub open spec fn decimal(n: nat) -> Seq<char>
    decreases n,
{
    if n < 10 {
        seq![digit_char(n)]
    } else {
        decimal(n / 10).push(digit_char(n % 10))
    }
}

/// What a run of digits stands for.
pub open spec fn digits_value(s: Seq<char>) -> nat
    decreases s.len(),
{
    if s.len() == 0 {
        0
    } else {
        digits_value(s.drop_last()) * 10 + (s.last() as int - 48) as nat
    }
}

/// Whether a text is a non-empty run of digits.
pub open spec fn all_digits(s: Seq<char>) -> bool {
    &&& s.len() > 0
    &&& forall|i: int| 0 <= i < s.len() ==> is_digit(#[trigger] s[i])
}

/// A text without its leading plus sign, if it has one.
pub open spec fn without_plus(s: Seq<char>) -> Seq<char> {
    if s.len() > 0 && s[0] == '+' {
        s.skip(1)
    } else {
        s
    }
}

/// The number that a text stands for: an optional plus sign, then only
/// digits, and a value that fits 64 bits.
pub open spec fn parsed_u64(s: Seq<char>) -> Option<u64> {
    let body = without_plus(s);
    if all_digits(body) && digits_value(body) <= u64::MAX {
        Some(digits_value(body) as u64)
    } else {
        None
    }
}

proof fn lemma_prefix_value(s: Seq<char>, k: int)
    requires
        0 <= k <= s.len(),
    ensures
        digits_value(s.take(k)) <= digits_value(s),
    decreases s.len() - k,
{
    if k == s.len() {
        assert(s.take(k) =~= s);
    } else {
        lemma_prefix_value(s, k + 1);
        assert(s.take(k + 1).drop_last() =~= s.take(k));
    }
}

/// The decimal text of a number is a run of digits that stands for it.
pub proof fn law_decimal_digits(n: nat)
    ensures
        all_digits(decimal(n)),
        digits_value(decimal(n)) == n,
    decreases n,
{
    if n < 10 {
        assert(decimal(n).drop_last() =~= Seq::<char>::empty());
        assert(digits_value(Seq::<char>::empty()) == 0);
    } else {
        law_decimal_digits(n / 10);
        assert(decimal(n).drop_last() =~= decimal(n / 10));
    }
}

/// Reading a number back from its decimal text gives the number.
pub proof fn law_decimal_round_trip(n: u64)
    ensures
        parsed_u64(decimal(n as nat)) == Some(n),
{
    law_decimal_digits(n as nat);
    assert(is_digit(decimal(n as nat)[0]));
}

/// The decimal text of a number determines the number.
pub proof fn law_decimal_injective(m: nat, n: nat)
    requires
        decimal(m) == decimal(n),
    ensures
        m == n,
{
    law_decimal_digits(m);
    law_decimal_digits(n);
}

/// Decimal text counts by ten: a digit more makes ten times the number and the
/// digit, and there is no zero in front.
pub proof fn law_decimal_counts_by_ten(q: nat, d: nat)
    requires
        d < 10,
    ensures
        decimal(d) == seq![('0' as int + d) as char],
        q > 0 ==> decimal(10 * q + d) == decimal(q).push(('0' as int + d) as char),
        q > 0 ==> decimal(q)[0] != '0',
    decreases q,
{
    if q > 0 {
        assert((10 * q + d) / 10 == q);
        assert((10 * q + d) % 10 == d);
        if q >= 10 {
            law_decimal_counts_by_ten(q / 10, 0);
            law_decimal_digits(q / 10);
        }
    }
}

/// A text of digits is read from its first digit on, by ten, as far as 64 bits
/// count.
pub proof fn law_digits_read_by_ten(s: Seq<char>, c: char)
    requires
        forall|i: int| 0 <= i < s.len() ==> '0' <= #[trigger] s[i] <= '9',
        '0' <= c <= '9',
    ensures
        s.len() == 0 ==> parsed_u64(s.push(c)) == Some((c as int - '0' as int) as u64),
        s.len() > 0 ==> parsed_u64(s.push(c)) == (match parsed_u64(s) {
            Some(n) => if 10 * n + (c as int - '0' as int) <= u64::MAX {
                Some((10 * n + (c as int - '0' as int)) as u64)
            } else {
                None
            },
            None => None,
        }),
{
    let t = s.push(c);
    assert(t.drop_last() =~= s);
    assert forall|i: int| 0 <= i < t.len() implies is_digit(#[trigger] t[i]) by {
        if i < s.len() {
            assert('0' <= s[i] <= '9');
        }
    }
    assert(is_digit(t[0]));
    assert forall|i: int| 0 <= i < s.len() implies is_digit(#[trigger] s[i]) by {
        assert('0' <= s[i] <= '9');
    }
    if s.len() > 0 {
        assert(is_digit(s[0]));
    }
    assert(digits_value(t) == digits_value(s) * 10 + (c as int - 48));
}

/// What is read as a number has digits only, and one at least, but for a plus
/// sign in front, which changes nothing.
pub proof fn law_only_digits_are_read(s: Seq<char>)
    ensures
        parsed_u64(s) is Some ==> s.len() > 0 && s.last() != '+' && forall|i: int|
            0 <= i < s.len() ==> '0' <= #[trigger] s[i] <= '9' || (i == 0 && s[i] == '+'),
        s.len() > 0 && s[0] != '+' ==> parsed_u64(seq!['+'] + s) == parsed_u64(s),
        parsed_u64(seq!['+']) is None,
{
    let body = without_plus(s);
    if parsed_u64(s) is Some {
        assert(is_digit(body[body.len() - 1]));
        assert forall|i: int| 0 <= i < s.len() implies '0' <= #[trigger] s[i] <= '9' || (i == 0 && s[i]
            == '+') by {
            if s[0] == '+' {
                if i > 0 {
                    assert(is_digit(body[i - 1]));
                }
            } else {
                assert(is_digit(body[i]));
            }
        }
    }
    assert((seq!['+'] + s).skip(1) =~= s);
    assert(seq!['+'].skip(1).len() == 0);
}

/// Appends `n` in decimal.
pub fn push_decimal(s: &mut String, n: u64)
    ensures
        final(s)@ == old(s)@ + decimal(n as nat),
    decreases n,
{
    let d: u8 = (n % 10) as u8;
    if n >= 10 {
        push_decimal(s, n / 10);
    }
    s.push((48 + d) as char);
}

/// Reads a number as the standard library reads a `u64`.
pub fn parse_u64(s: &str) -> (r: Option<u64>)
    ensures
        r == parsed_u64(s@),
{
    let v = chars_of(s);
    let mut i: usize = 0;
    if v.len() > 0 && v[0] == '+' {
        i = 1;
    }
    if i == v.len() {
        return None;
    }
    let ghost body = without_plus(s@);
    let ghost first = i as int;
    let mut n: u64 = 0;
    proof {
        assert(body.take(0) =~= Seq::<char>::empty());
    }
    while i < v.len()
        invariant
            v@ == s@,
            body == without_plus(s@),
            first == (if s@.len() > 0 && s@[0] == '+' { 1int } else { 0int }),
            first <= i <= v.len(),
            body == v@.skip(first),
            body.len() > 0,
            n == digits_value(body.take(i - first)),
            forall|j: int| 0 <= j < i - first ==> is_digit(#[trigger] body[j]),
        decreases v.len() - i,
    {
        let c = v[i];
        let ghost k = i - first;
        assert(c == body[k]);
        if !(c >= '0' && c <= '9') {
            assert(!is_digit(body[k]));
            return None;
        }
        let d: u64 = (c as u32 - 48) as u64;
        proof {
            assert(body.take(k + 1).drop_last() =~= body.take(k));
            assert(digits_value(body.take(k + 1)) == n * 10 + d);
            lemma_prefix_value(body, k + 1);
        }
        if n > u64::MAX / 10 || n * 10 > u64::MAX - d {
            return None;
        }
        n = n * 10 + d;
        i = i + 1;
    }
    proof {
        assert(body.take(body.len() as int) =~= body);
    }
    Some(n)
}

} // verus!
