//! Evaluating the arithmetic that is left when every dice group has been
//! replaced by a number, and cutting the value down to a whole number.

use crate::error::DiceError;
use vstd::arithmetic::power2::{lemma2_to64, lemma2_to64_rest, lemma_pow2_strictly_increases, pow2};
use vstd::bits::{lemma_u64_shl_is_mul, lemma_u64_shr_is_div};
use vstd::prelude::*;

verus! {

/// The error type of the meval crate.
#[verifier::external_type_specification]
#[verifier::external_body]
pub struct ExFormulaError(meval::Error);

/// A space, a tab, a carriage return or a line feed.
pub open spec fn is_space(c: char) -> bool {
    c == ' ' || c == '\t' || c == '\r' || c == '\n'
}

/// A text that is not empty and holds nothing but spaces, tabs and line ends.
pub open spec fn is_blank(text: Seq<char>) -> bool {
    text.len() > 0 && forall|i: int| 0 <= i < text.len() ==> is_space(#[trigger] text[i])
}

/// A character that can start a name, or the sign for powers. Text without
/// any of them cannot reach a constant, a function or a power.
pub open spec fn is_name_or_power(c: char) -> bool {
    ('a' <= c && c <= 'z') || ('A' <= c && c <= 'Z') || c == '_' || c == '^'
}

/// Text of plain arithmetic: no letter, no underscore and no `^` in it.
pub open spec fn is_plain(text: Seq<char>) -> bool {
    forall|i: int| 0 <= i < text.len() ==> !is_name_or_power(#[trigger] text[i])
}

/// What `meval::eval_str` makes of a text: `None` where it returns an
/// error, and the bits of a 64-bit float where it returns a number. On
/// plain arithmetic the float is the number that it returns, any NaN
/// standing for every NaN.
pub uninterp spec fn formula_bits(text: Seq<char>) -> Option<u64>;

/// `meval::eval_str`. It tokenizes the text, orders the tokens by operator
/// precedence and computes the value in 64-bit floats; what it returns is
/// handed on as the float's bits. On a text that is nothing but white space
/// its tokenizer panics, so such a text is not accepted.
///
/// Whether it returns an error depends on the text alone: the tokens, their
/// order, and the names that its fixed set of constants and functions
/// knows. On plain arithmetic the number comes from reading decimal numbers
/// and from `+`, `-`, `*`, `/` and `%` on floats, which give one number
/// everywhere; only the sign and the payload of a NaN are left open, so a
/// NaN is claimed to be a NaN and no more. Of the number that other text
/// gives (names of constants and functions, powers) nothing is claimed.
#[verifier::external_body]
pub(crate) fn eval_formula(text: &str) -> (value: Result<u64, meval::Error>)
    requires
        !is_blank(text@),
    ensures
        value is Err <==> formula_bits(text@) is None,
        is_plain(text@) ==> match value {
            Ok(bits) => formula_bits(text@) is Some && same_number(formula_bits(text@)->0, bits),
            Err(_) => formula_bits(text@) is None,
        },
{
    match meval::eval_str(text) {
        Ok(number) => Ok(number.to_bits()),
        Err(error) => Err(error),
    }
}

/// Whether the sign bit of a 64-bit float is set.
pub open spec fn sign_bit(bits: u64) -> bool {
    bits >> 63 == 1
}

/// The exponent field of a 64-bit float: eleven bits, biased by 1023.
pub open spec fn exponent_field(bits: u64) -> nat {
    ((bits >> 52) & 0x7ff) as nat
}

/// The fraction field of a 64-bit float: the low 52 bits.
pub open spec fn fraction_field(bits: u64) -> nat {
    (bits & 0xf_ffff_ffff_ffff) as nat
}

/// Whether the bits are those of a NaN.
pub open spec fn is_nan(bits: u64) -> bool {
    exponent_field(bits) == 2047 && fraction_field(bits) != 0
}

/// Bits of the same number: equal bits, or two NaNs.
pub open spec fn same_number(a: u64, b: u64) -> bool {
    a == b || (is_nan(a) && is_nan(b))
}

/// The whole part of the magnitude of a 64-bit float that is not a NaN:
/// what is left of `(2^52 + fraction) * 2^(exponent - 1075)` when the digits
/// after the point are dropped. Numbers below one, the subnormal ones and
/// zero among them, have the whole part 0; infinity gets a number far
/// beyond 64 bits.
pub open spec fn whole_part(bits: u64) -> nat {
    let e = exponent_field(bits);
    let m = pow2(52) + fraction_field(bits);
    if e < 1023 {
        0
    } else if e <= 1075 {
        m / pow2((1075 - e) as nat)
    } else {
        m * pow2((e - 1075) as nat)
    }
}

/// The float with the given bits as a whole number: rounded toward zero,
/// held to the range of `i64`, and 0 for a NaN.
pub open spec fn truncated(bits: u64) -> i64 {
    if is_nan(bits) {
        0
    } else if sign_bit(bits) {
        if whole_part(bits) > 0x8000_0000_0000_0000 {
            i64::MIN
        } else {
            (-whole_part(bits)) as i64
        }
    } else {
        if whole_part(bits) > i64::MAX {
            i64::MAX
        } else {
            whole_part(bits) as i64
        }
    }
}

/// Rounds the 64-bit float with the given bits toward zero: 2.9 gives 2, and
/// -2.9 gives -2. A value beyond the range of `i64` gives the end of the
/// range on its side, and a NaN gives 0.
pub fn truncate_bits(bits: u64) -> (value: i64)
    ensures
        value == truncated(bits),
{
    let negative = (bits >> 63) == 1;
    let e: u64 = (bits >> 52) & 0x7ff;
    let f: u64 = bits & 0xf_ffff_ffff_ffff;
    assert(e <= 2047 && f <= 0xf_ffff_ffff_ffff) by (bit_vector)
        requires
            e == (bits >> 52) & 0x7ff,
            f == bits & 0xf_ffff_ffff_ffff,
    ;
    proof {
        lemma2_to64();
        lemma2_to64_rest();
    }
    if e == 2047 && f != 0 {
        return 0;
    }
    if e < 1023 {
        return 0;
    }
    let m: u64 = f + 0x10_0000_0000_0000;
    if e >= 1086 {
        proof {
            let shift = (e - 1075) as nat;
            if shift > 11 {
                lemma_pow2_strictly_increases(11, shift);
            }
            assert(m * pow2(shift) >= 0x8000_0000_0000_0000) by (nonlinear_arith)
                requires
                    m >= 0x10_0000_0000_0000,
                    pow2(shift) >= 0x800,
            ;
        }
        return if negative {
            i64::MIN
        } else {
            i64::MAX
        };
    }
    let magnitude: u64 = if e <= 1075 {
        let shift: u64 = 1075 - e;
        proof {
            lemma_u64_shr_is_div(m, shift);
            assert(m >> shift <= m) by (bit_vector);
        }
        m >> shift
    } else {
        let shift: u64 = e - 1075;
        proof {
            if shift < 10 {
                lemma_pow2_strictly_increases(shift as nat, 10);
            }
            assert(m * pow2(shift as nat) < 0x8000_0000_0000_0000) by (nonlinear_arith)
                requires
                    m < 0x20_0000_0000_0000,
                    pow2(shift as nat) <= 0x400,
            ;
            lemma_u64_shl_is_mul(m, shift);
        }
        m << shift
    };
    if negative {
        -(magnitude as i64)
    } else {
        magnitude as i64
    }
}

/// Turns what the evaluator returned into an outcome: a value is rounded
/// toward zero, and every error of the evaluator becomes
/// `MalformedExpression`.
pub fn outcome_of_evaluation(evaluated: Result<u64, meval::Error>) -> (outcome: Result<
    i64,
    DiceError,
>)
    ensures
        outcome == match evaluated {
            Ok(bits) => Ok::<i64, DiceError>(truncated(bits)),
            Err(_) => Err::<i64, DiceError>(DiceError::MalformedExpression),
        },
{
    match evaluated {
        Ok(bits) => Ok(truncate_bits(bits)),
        Err(_) => Err(DiceError::MalformedExpression),
    }
}

/// Tells whether a text is not empty and all white space.
pub fn text_is_blank(text: &str) -> (blank: bool)
    ensures
        blank == is_blank(text@),
{
    let mut any = false;
    for c in it: text.chars()
        invariant
            it.seq() == text@,
            any == (it.index() > 0),
            forall|i: int| 0 <= i < it.index() ==> is_space(#[trigger] text@[i]),
    {
        if !(c == ' ' || c == '\t' || c == '\r' || c == '\n') {
            return false;
        }
        any = true;
    }
    any
}

/// Whether the evaluator returns an error for the text.
pub open spec fn formula_fails(text: Seq<char>) -> bool {
    formula_bits(text) is None
}

/// Whether a text has no value: it is blank, or the evaluator returns an
/// error for it.
pub open spec fn text_fails(text: Seq<char>) -> bool {
    is_blank(text) || formula_fails(text)
}

/// The outcome of a text of plain arithmetic: `MalformedExpression` for a
/// text without a value, and otherwise the value rounded toward zero.
pub open spec fn plain_outcome(text: Seq<char>) -> Result<i64, DiceError> {
    if text_fails(text) {
        Err(DiceError::MalformedExpression)
    } else {
        Ok(truncated(formula_bits(text)->0))
    }
}

/// What holds of the outcome of evaluating a text. It is an error just
/// when the text has no value, and the error is `MalformedExpression`. On
/// plain arithmetic the outcome is the one that the text has.
pub open spec fn is_outcome_of(text: Seq<char>, outcome: Result<i64, DiceError>) -> bool {
    &&& outcome is Err <==> text_fails(text)
    &&& outcome is Err ==> outcome == Err::<i64, DiceError>(DiceError::MalformedExpression)
    &&& is_plain(text) ==> outcome == plain_outcome(text)
}

/// Evaluates a text of arithmetic and rounds the value toward zero. A blank
/// text and one that the evaluator rejects give `MalformedExpression`, and
/// no other text gives an error.
pub fn evaluate_text(text: &str) -> (outcome: Result<i64, DiceError>)
    ensures
        is_outcome_of(text@, outcome),
{
    if text_is_blank(text) {
        Err(DiceError::MalformedExpression)
    } else {
        outcome_of_evaluation(eval_formula(text))
    }
}

} // verus!
