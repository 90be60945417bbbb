//! The run's three settings: corpus file, context length and seed phrase.

use vstd::prelude::*;
use crate::error::ModelError;
use crate::text::{split_whitespace, split_words};

verus! {

/// The context length of a run that names none.
pub const DEFAULT_CONTEXT_LENGTH: usize = 2;

/// The corpus file of a run that names none.
pub open spec fn default_filename() -> Seq<char> {
    "data/sherlock_holmes.txt"@
}

/// The seed phrase of a run that names none.
pub open spec fn default_seed() -> Seq<char> {
    "i confess"@
}

/// `c` is one of the ten decimal digits.
pub open spec fn is_digit(c: char) -> bool {
    '0' <= c <= '9'
}

/// The number that the digit `c` stands for.
pub open spec fn digit_value(c: char) -> nat {
    (c as nat - '0' as nat) as nat
}

/// The number that a run of digits writes in base ten.
pub open spec fn decimal_value(digits: Seq<char>) -> nat
    decreases digits.len(),
{
    if digits.len() == 0 {
        0
    } else {
        10 * decimal_value(digits.drop_last()) + digit_value(digits.last())
    }
}

/// The digits of a number's text: the text without a leading plus sign.
pub open spec fn digits_of(text: Seq<char>) -> Seq<char> {
    if text.len() > 0 && text[0] == '+' {
        text.drop_first()
    } else {
        text
    }
}

/// `text` writes a number: at least one digit and nothing else, but for one
/// plus sign that may stand in front.
pub open spec fn is_number(text: Seq<char>) -> bool {
    &&& digits_of(text).len() > 0
    &&& forall|i: int| 0 <= i < digits_of(text).len() ==> is_digit(#[trigger] digits_of(text)[i])
}

/// The number that `text` writes.
pub open spec fn number_value(text: Seq<char>) -> nat {
    decimal_value(digits_of(text))
}

/// A longer run of digits writes no smaller a number than its front part.
pub proof fn lemma_decimal_grows(digits: Seq<char>, k: int)
    requires
        0 <= k <= digits.len(),
    ensures
        decimal_value(digits.take(k)) <= decimal_value(digits),
    decreases digits.len() - k,
{
    if k == digits.len() {
        assert(digits.take(k) =~= digits);
    } else {
        lemma_decimal_grows(digits, k + 1);
        assert(digits.take(k + 1).drop_last() =~= digits.take(k));
    }
}

/// The number that `text` writes, if it writes one that fits a `usize`.
pub fn parse_count(text: &str) -> (count: Option<usize>)
    ensures
        count is Some <==> is_number(text@) && number_value(text@) <= usize::MAX,
        count is Some ==> count->Some_0 == number_value(text@),
{
    let len = text.unicode_len();
    if len == 0 {
        return None;
    }
    let first: usize = if text.get_char(0) == '+' {
        1
    } else {
        0
    };
    if first == len {
        return None;
    }
    let ghost digits = digits_of(text@);
    proof {
        assert(digits =~= text@.subrange(first as int, len as int));
        assert(digits.take(0) =~= Seq::empty());
    }
    let mut value: usize = 0;
    let mut i: usize = first;
    while i < len
        invariant
            len == text@.len(),
            first <= i <= len,
            digits == text@.subrange(first as int, len as int),
            digits == digits_of(text@),
            forall|j: int| 0 <= j < i - first ==> is_digit(#[trigger] digits[j]),
            value == decimal_value(digits.take(i - first)),
        decreases len - i,
    {
        let c = text.get_char(i);
        proof {
            assert(digits[i - first] == c);
            assert(digits.take(i - first + 1).drop_last() =~= digits.take(i - first));
            lemma_decimal_grows(digits, i - first + 1);
        }
        if !('0' <= c && c <= '9') {
            return None;
        }
        let digit: usize = (c as u32 - '0' as u32) as usize;
        let shifted = match value.checked_mul(10) {
            Some(v) => v,
            None => {
                return None;
            },
        };
        value = match shifted.checked_add(digit) {
            Some(v) => v,
            None => {
                return None;
            },
        };
        i = i + 1;
    }
    proof {
        assert(digits.take(len - first) =~= digits);
    }
    Some(value)
}

/// Accepts a seed that has at least `n` words.
pub fn validate_seed(seed_words: &Vec<String>, n: usize) -> (outcome: Result<(), ModelError>)
    ensures
        seed_words.len() >= n ==> outcome is Ok,
        seed_words.len() < n ==> outcome == Err::<(), ModelError>(ModelError::Configuration),
{
    if seed_words.len() < n {
        Err(ModelError::Configuration)
    } else {
        Ok(())
    }
}

/// The text of the corpus file that `args` name.
pub open spec fn filename_text(args: Seq<Seq<char>>) -> Seq<char> {
    if args.len() > 1 {
        args[1]
    } else {
        default_filename()
    }
}

/// The seed phrase that `args` name.
pub open spec fn seed_text(args: Seq<Seq<char>>) -> Seq<char> {
    if args.len() > 3 {
        args[3]
    } else {
        default_seed()
    }
}

/// The context length that `args` name, if it is a number that fits.
pub open spec fn context_length(args: Seq<Seq<char>>) -> Option<nat> {
    if args.len() > 2 {
        if is_number(args[2]) && number_value(args[2]) <= usize::MAX {
            Some(number_value(args[2]))
        } else {
            None
        }
    } else {
        Some(DEFAULT_CONTEXT_LENGTH as nat)
    }
}

/// Reads the settings of a run from its arguments: after the program's name
/// the corpus file, the context length and the seed phrase, each with a
/// default where it is missing. The seed phrase is split into words at
/// whitespace.
///
/// A context length that is no number is an `Argument` error; a seed with
/// fewer words than the context length is a `Configuration` error.
pub fn process_arguments(args: &Vec<String>) -> (outcome: Result<
    (String, usize, Vec<String>),
    ModelError,
>)
    ensures
        match outcome {
            Ok((filename, n, seed_words)) => {
                &&& filename@ == filename_text(args.deep_view())
                &&& context_length(args.deep_view()) == Some(n as nat)
                &&& seed_words.deep_view() == split_words(seed_text(args.deep_view()))
                &&& n <= seed_words.len()
            },
            Err(error) => match context_length(args.deep_view()) {
                None => error == ModelError::Argument,
                Some(n) => error == ModelError::Configuration && split_words(
                    seed_text(args.deep_view()),
                ).len() < n,
            },
        },
{
    let filename = if args.len() > 1 {
        args[1].clone()
    } else {
        String::from_str("data/sherlock_holmes.txt")
    };
    let n: usize = if args.len() > 2 {
        match parse_count(args[2].as_str()) {
            Some(n) => n,
            None => {
                return Err(ModelError::Argument);
            },
        }
    } else {
        DEFAULT_CONTEXT_LENGTH
    };
    let seed_words = if args.len() > 3 {
        split_whitespace(args[3].as_str())
    } else {
        split_whitespace("i confess")
    };
    match validate_seed(&seed_words, n) {
        Ok(()) => Ok((filename, n, seed_words)),
        Err(error) => Err(error),
    }
}

} // verus!
