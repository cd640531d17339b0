//! The text of a calibration: pairs of a position and a distance.
//!
//! The text is a run of tokens set apart by white space. The tokens come in
//! pairs: a pixel position, written as a whole number, and the distance
//! measured there. This module cuts the text into tokens, pairs them up and
//! reads the positions. How a distance is written is left to the caller,
//! who gets the place of each distance token in the text.

use vstd::prelude::*;
use vstd::slice::slice_subrange;

verus! {

/// White space: a blank, or one of the control characters from tab to
/// carriage return.
pub open spec fn is_space(byte: u8) -> bool {
    byte == 32 || 9 <= byte <= 13
}

/// A decimal digit.
pub open spec fn is_digit(byte: u8) -> bool {
    48 <= byte <= 57
}

/// The bytes from `a` up to `b` are a token: a run without white space
/// that ends on either side at white space or at the end of the text.
pub open spec fn is_token(text: Seq<u8>, a: int, b: int) -> bool {
    &&& 0 <= a < b <= text.len()
    &&& forall|k: int| a <= k < b ==> !is_space(#[trigger] text[k])
    &&& (a == 0 || is_space(text[a - 1]))
    &&& (b == text.len() || is_space(text[b]))
}

/// Some token holds the byte at `k`.
pub open spec fn held(tokens: Seq<(usize, usize)>, k: int) -> bool {
    exists|i: int| 0 <= i < tokens.len() && (#[trigger] tokens[i]).0 <= k < tokens[i].1
}

/// `tokens` are the tokens of the text from left to right, all of them, up
/// to the byte at `end`.
pub open spec fn tokens_up_to(text: Seq<u8>, tokens: Seq<(usize, usize)>, end: int) -> bool {
    &&& forall|i: int|
        0 <= i < tokens.len() ==> is_token(text, (#[trigger] tokens[i]).0 as int, tokens[i].1 as int)
            && tokens[i].1 <= end
    &&& forall|i: int, j: int| 0 <= i < j < tokens.len() ==> tokens[i].1 < tokens[j].0
    &&& forall|k: int| 0 <= k < end && !is_space(#[trigger] text[k]) ==> held(tokens, k)
}

/// `tokens` are the tokens of the text from left to right, all of them.
pub open spec fn tokens_of(text: Seq<u8>, tokens: Seq<(usize, usize)>) -> bool {
    tokens_up_to(text, tokens, text.len() as int)
}

/// The number that a run of digits stands for.
pub open spec fn digits_value(digits: Seq<u8>) -> int
    decreases digits.len(),
{
    if digits.len() == 0 {
        0
    } else {
        digits_value(digits.drop_last()) * 10 + (digits.last() - 48)
    }
}

/// The token without the plus sign that may go before its digits.
pub open spec fn unsigned(token: Seq<u8>) -> Seq<u8> {
    if token.len() > 0 && token[0] == 43 {
        token.subrange(1, token.len() as int)
    } else {
        token
    }
}

/// The token is a position: at least one digit and nothing but digits,
/// after a plus sign or without one, and a number that can be had.
pub open spec fn is_position(token: Seq<u8>) -> bool {
    &&& unsigned(token).len() > 0
    &&& forall|k: int| 0 <= k < unsigned(token).len() ==> is_digit(#[trigger] unsigned(token)[k])
    &&& digits_value(unsigned(token)) <= usize::MAX
}

/// The bytes of a token.
pub open spec fn token_text(text: Seq<u8>, token: (usize, usize)) -> Seq<u8> {
    text.subrange(token.0 as int, token.1 as int)
}

/// One pair of the calibration.
#[derive(Debug, Clone, Copy, PartialEq, Eq)]
pub struct Entry {
    /// The pixel position.
    pub position: usize,
    /// Where the distance token begins in the text.
    pub distance_start: usize,
    /// Where the distance token ends in the text.
    pub distance_end: usize,
}

/// Why a text is no calibration.
#[derive(Debug, Clone, Copy, PartialEq, Eq)]
pub enum CalibrationError {
    /// The last position has no distance after it.
    OddTokenCount,
    /// The token with this number, counted from 0, should be a position
    /// and is none.
    BadPosition { token: usize },
}

/// Every token at an even place before `n` is a position.
pub open spec fn positions_before(text: Seq<u8>, tokens: Seq<(usize, usize)>, n: int) -> bool {
    forall|i: int|
        0 <= i < n && i % 2 == 0 ==> is_position(token_text(text, #[trigger] tokens[i]))
}

/// What pairing up the tokens gives: the entries, or the first thing that
/// stands in the way. Pair by pair, the position is read before the
/// distance is asked for.
pub open spec fn paired(
    text: Seq<u8>,
    tokens: Seq<(usize, usize)>,
    result: Result<Vec<Entry>, CalibrationError>,
) -> bool {
    match result {
        Ok(entries) => {
            &&& tokens.len() == 2 * entries.len()
            &&& forall|i: int|
                0 <= i < entries.len() ==> {
                    &&& is_position(token_text(text, tokens[2 * i]))
                    &&& (#[trigger] entries[i]).position == digits_value(
                        unsigned(token_text(text, tokens[2 * i])),
                    )
                    &&& entries[i].distance_start == tokens[2 * i + 1].0
                    &&& entries[i].distance_end == tokens[2 * i + 1].1
                }
        },
        Err(CalibrationError::BadPosition { token }) => {
            &&& token < tokens.len()
            &&& token % 2 == 0
            &&& !is_position(token_text(text, tokens[token as int]))
            &&& positions_before(text, tokens, token as int)
        },
        Err(CalibrationError::OddTokenCount) => {
            &&& tokens.len() % 2 == 1
            &&& positions_before(text, tokens, tokens.len() as int)
        },
    }
}

/// A run of digits stands for at least as much as any of its beginnings.
proof fn lemma_digits_grow(digits: Seq<u8>, n: int)
    requires
        0 <= n <= digits.len(),
        forall|k: int| 0 <= k < digits.len() ==> is_digit(#[trigger] digits[k]),
    ensures
        0 <= digits_value(digits.take(n)) <= digits_value(digits),
    decreases digits.len() - n,
{
    if n == digits.len() {
        assert(digits.take(n) =~= digits);
        lemma_digits_not_negative(digits);
    } else {
        lemma_digits_grow(digits, n + 1);
        assert(digits.take(n + 1).drop_last() =~= digits.take(n));
        assert(digits.take(n + 1).last() == digits[n]);
        lemma_digits_not_negative(digits.take(n));
    }
}

/// A run of digits stands for no negative number.
proof fn lemma_digits_not_negative(digits: Seq<u8>)
    requires
        forall|k: int| 0 <= k < digits.len() ==> is_digit(#[trigger] digits[k]),
    ensures
        0 <= digits_value(digits),
    decreases digits.len(),
{
    if digits.len() > 0 {
        assert forall|k: int| 0 <= k < digits.drop_last().len() implies is_digit(
            #[trigger] digits.drop_last()[k],
        ) by {
            assert(digits.drop_last()[k] == digits[k]);
        }
        lemma_digits_not_negative(digits.drop_last());
        assert(is_digit(digits[digits.len() - 1]));
    }
}

/// Tells whether a byte is white space.
pub fn is_space_byte(byte: u8) -> (result: bool)
    ensures
        result == is_space(byte),
{
    byte == 32 || (9 <= byte && byte <= 13)
}

/// Cuts a text into its tokens. Each token is given as the place where it
/// begins and the place where it ends.
pub fn split_tokens(text: &[u8]) -> (tokens: Vec<(usize, usize)>)
    ensures
        tokens_of(text@, tokens@),
{
    let len = text.len();
    let mut tokens: Vec<(usize, usize)> = Vec::new();
    let mut i: usize = 0;
    while i < len
        invariant
            i <= len,
            len == text.len(),
            tokens_up_to(text@, tokens@, i as int),
            i == 0 || i == len || is_space(text@[i - 1]) || is_space(text@[i as int]),
        decreases len - i,
    {
        if is_space_byte(text[i]) {
            i = i + 1;
        } else {
            let start = i;
            let ghost before = tokens@;
            while i < len && !is_space_byte(text[i])
                invariant
                    start <= i <= len,
                    start < len,
                    len == text.len(),
                    !is_space(text@[start as int]),
                    forall|k: int| start <= k < i ==> !is_space(#[trigger] text@[k]),
                decreases len - i,
            {
                i = i + 1;
            }
            tokens.push((start, i));
            proof {
                let added = tokens@;
                assert(is_token(text@, start as int, i as int));
                assert forall|a: int, b: int| 0 <= a < b < added.len() implies added[a].1
                    < added[b].0 by {
                    if b == before.len() {
                        assert(added[a] == before[a]);
                        assert(is_token(text@, before[a].0 as int, before[a].1 as int));
                        if before[a].1 == start {
                            assert(!is_space(text@[start as int]));
                        }
                    } else {
                        assert(added[a] == before[a] && added[b] == before[b]);
                    }
                }
                assert forall|k: int| 0 <= k < i && !is_space(#[trigger] text@[k]) implies held(
                    added,
                    k,
                ) by {
                    if k < start {
                        assert(held(before, k));
                        let t = choose|t: int|
                            0 <= t < before.len() && (#[trigger] before[t]).0 <= k < before[t].1;
                        assert(added[t] == before[t]);
                    } else {
                        assert(added[before.len() as int].0 <= k < added[before.len() as int].1);
                    }
                }
                assert forall|t: int| 0 <= t < added.len() implies is_token(
                    text@,
                    (#[trigger] added[t]).0 as int,
                    added[t].1 as int,
                ) && added[t].1 <= i by {
                    if t < before.len() {
                        assert(added[t] == before[t]);
                    }
                }
            }
        }
    }
    tokens
}

/// Reads a token as a position.
pub fn parse_position(token: &[u8]) -> (result: Option<usize>)
    ensures
        result is Some <==> is_position(token@),
        result matches Some(value) ==> value == digits_value(unsigned(token@)),
{
    let len = token.len();
    let first: usize = if len > 0 && token[0] == 43 {
        1
    } else {
        0
    };
    if first == len {
        return None;
    }
    let ghost digits = unsigned(token@);
    let mut value: u128 = 0;
    let mut i: usize = first;
    proof {
        assert(digits.take(0) =~= Seq::<u8>::empty());
    }
    while i < len
        invariant
            first <= i <= len,
            len == token.len(),
            digits == unsigned(token@),
            digits.len() == len - first,
            forall|k: int| 0 <= k < digits.len() ==> digits[k] == token@[first + k],
            forall|k: int| 0 <= k < i - first ==> is_digit(#[trigger] digits[k]),
            value == digits_value(digits.take(i - first)),
            value <= usize::MAX,
        decreases len - i,
    {
        let byte = token[i];
        if byte < 48 || byte > 57 {
            proof {
                assert(!is_digit(digits[i - first]));
            }
            return None;
        }
        proof {
            assert(digits.take(i - first + 1).drop_last() =~= digits.take(i - first));
            assert(digits.take(i - first + 1).last() == byte);
        }
        value = value * 10 + (byte - 48) as u128;
        if value > usize::MAX as u128 {
            proof {
                if is_position(token@) {
                    lemma_digits_grow(digits, i - first + 1);
                }
            }
            return None;
        }
        i = i + 1;
    }
    proof {
        assert(digits.take(len - first) =~= digits);
    }
    Some(value as usize)
}

/// Pairs up tokens: every first token of a pair is read as a position,
/// every second is kept as the place of a distance.
pub fn pair_tokens(text: &[u8], tokens: &Vec<(usize, usize)>) -> (result: Result<
    Vec<Entry>,
    CalibrationError,
>)
    requires
        forall|i: int|
            0 <= i < tokens.len() ==> (#[trigger] tokens[i]).0 <= tokens[i].1 <= text.len(),
    ensures
        paired(text@, tokens@, result),
{
    let count = tokens.len();
    let mut entries: Vec<Entry> = Vec::new();
    let mut n: usize = 0;
    while n < count
        invariant
            n <= count,
            count == tokens.len(),
            n % 2 == 0,
            n == 2 * entries.len(),
            positions_before(text@, tokens@, n as int),
            forall|i: int|
                0 <= i < tokens.len() ==> (#[trigger] tokens[i]).0 <= tokens[i].1 <= text.len(),
            forall|i: int|
                0 <= i < entries.len() ==> {
                    &&& is_position(token_text(text@, tokens[2 * i]))
                    &&& (#[trigger] entries[i]).position == digits_value(
                        unsigned(token_text(text@, tokens[2 * i])),
                    )
                    &&& entries[i].distance_start == tokens[2 * i + 1].0
                    &&& entries[i].distance_end == tokens[2 * i + 1].1
                },
        decreases count - n,
    {
        let (start, end) = tokens[n];
        let word = slice_subrange(text, start, end);
        let position = match parse_position(word) {
            Some(position) => position,
            None => {
                return Err(CalibrationError::BadPosition { token: n });
            },
        };
        if n + 1 == count {
            proof {
                assert forall|i: int| 0 <= i < count && i % 2 == 0 implies is_position(
                    token_text(text@, #[trigger] tokens@[i]),
                ) by {
                    if i >= n {
                        assert(i == n);
                    }
                }
            }
            return Err(CalibrationError::OddTokenCount);
        }
        let (distance_start, distance_end) = tokens[n + 1];
        entries.push(Entry { position, distance_start, distance_end });
        proof {
            assert forall|i: int| 0 <= i < n + 2 && i % 2 == 0 implies is_position(
                token_text(text@, #[trigger] tokens@[i]),
            ) by {
                if i >= n {
                    assert(i == n);
                }
            }
        }
        n = n + 2;
    }
    Ok(entries)
}

/// Reads the text of a calibration: cuts it into tokens and pairs them up.
pub fn calibration_entries(text: &[u8]) -> (result: Result<Vec<Entry>, CalibrationError>)
    ensures
        exists|tokens: Seq<(usize, usize)>|
            #![trigger tokens_of(text@, tokens)]
            tokens_of(text@, tokens) && paired(text@, tokens, result),
{
    let tokens = split_tokens(text);
    proof {
        assert forall|i: int| 0 <= i < tokens.len() implies (#[trigger] tokens[i]).0
            <= tokens[i].1 <= text.len() by {
            assert(is_token(text@, tokens[i].0 as int, tokens[i].1 as int));
        }
    }
    let result = pair_tokens(text, &tokens);
    proof {
        assert(tokens_of(text@, tokens@) && paired(text@, tokens@, result));
    }
    result
}

} // verus!
