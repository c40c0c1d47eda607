//! The secret that a peer shows to write into a session.

use vstd::prelude::*;
use vstd::string::*;

verus! {

/// How many characters a token has.
pub const TOKEN_LEN: usize = 24;

/// How many different characters a token is made of.
pub const TOKEN_BASE: u8 = 36;

/// The character for a number below [`TOKEN_BASE`]: a digit, then a small
/// letter.
pub open spec fn token_char(d: u8) -> char {
    if d < 10 {
        (48 + d) as char
    } else {
        (97 + d - 10) as char
    }
}

/// Whether a character can be part of a token.
pub open spec fn is_token_char(c: char) -> bool {
    '0' <= c <= '9' || 'a' <= c <= 'z'
}

/// Different numbers have different characters, all of them digits or small
/// letters.
pub proof fn law_token_chars(a: u8, b: u8)
    requires
        a < TOKEN_BASE,
        b < TOKEN_BASE,
    ensures
        is_token_char(token_char(a)),
        token_char(a) == token_char(b) ==> a == b,
{
}

/// The first ten numbers stand for the digits and the next ones for the small
/// letters, both in order.
pub proof fn law_token_alphabet(d: u8)
    requires
        d < 36,
    ensures
        d < 10 ==> token_char(d) as int - '0' as int == d,
        d >= 10 ==> token_char(d) as int - 'a' as int == d - 10,
{
}

/// `rand::Rng::gen_range` on `rand::thread_rng()`: a number from 0 up to, but
/// not with, `n`. Which one it is, is left to chance. The outside code panics
/// where the system has no randomness to give.
#[verifier::external_body]
fn random_below(n: u8) -> (r: u8)
    requires
        n > 0,
    ensures
        r < n,
{
    rand::Rng::gen_range(&mut rand::thread_rng(), 0..n)
}

/// The token that a run of numbers stands for.
pub fn token_of(digits: &Vec<u8>) -> (r: String)
    requires
        forall|i: int| 0 <= i < digits@.len() ==> #[trigger] digits@[i] < TOKEN_BASE,
    ensures
        r@ == digits@.map_values(|d: u8| token_char(d)),
{
    let mut s = String::new();
    let ghost all = digits@.map_values(|d: u8| token_char(d));
    let mut i: usize = 0;
    proof {
        assert(all.take(0) =~= Seq::<char>::empty());
    }
    while i < digits.len()
        invariant
            i <= digits.len(),
            forall|i: int| 0 <= i < digits@.len() ==> #[trigger] digits@[i] < TOKEN_BASE,
            all == digits@.map_values(|d: u8| token_char(d)),
            s@ == all.take(i as int),
        decreases digits.len() - i,
    {
        let d = digits[i];
        let c: u8 = if d < 10 {
            48 + d
        } else {
            97 + d - 10
        };
        s.push(c as char);
        proof {
            assert(all.take(i + 1) =~= all.take(i as int).push(all[i as int]));
        }
        i = i + 1;
    }
    proof {
        assert(all.take(all.len() as int) =~= all);
    }
    s
}

/// A new token: [`TOKEN_LEN`] characters, each drawn from all that there are.
pub fn fresh_token() -> (r: String)
    ensures
        r@.len() == TOKEN_LEN,
        r@.len() == 24,
        forall|i: int| 0 <= i < r@.len() ==> is_token_char(#[trigger] r@[i]),
{
    let mut digits: Vec<u8> = Vec::new();
    while digits.len() < TOKEN_LEN
        invariant
            digits.len() <= TOKEN_LEN,
            forall|i: int| 0 <= i < digits@.len() ==> #[trigger] digits@[i] < TOKEN_BASE,
        decreases TOKEN_LEN - digits.len(),
    {
        let d = random_below(TOKEN_BASE);
        digits.push(d);
    }
    let r = token_of(&digits);
    proof {
        assert forall|i: int| 0 <= i < r@.len() implies is_token_char(#[trigger] r@[i]) by {
            assert(digits@[i] < TOKEN_BASE);
        }
    }
    r
}

/// Every digit and every small letter can be part of a token.
pub proof fn law_every_character_is_drawn_from(c: char)
    requires
        '0' <= c <= '9' || 'a' <= c <= 'z',
    ensures
        exists|d: u8| d < TOKEN_BASE && #[trigger] token_char(d) == c,
{
    let d: u8 = if c <= '9' {
        (c as int - '0' as int) as u8
    } else {
        (c as int - 'a' as int + 10) as u8
    };
    assert(token_char(d) == c);
}

} // verus!
