//! One random roll of a notation string.

use crate::decimal::lemma_decimal_round_trip;
use crate::error::DiceError;
use crate::formula::{evaluate_text, is_outcome_of, is_plain, plain_outcome};
use crate::group::{check_tokens, checked_groups, is_roll, RollInfo};
use crate::notation::{extract_dice_values, filled, format_dice_string, pieces_of, slot, tokens_of, Template};
use vstd::prelude::*;

verus! {

/// Literal texts that are all plain arithmetic.
pub open spec fn plain_pieces(pieces: Seq<Seq<char>>) -> bool {
    forall|j: int| 0 <= j < pieces.len() ==> is_plain(#[trigger] pieces[j])
}

/// Plain literal texts stay plain arithmetic when numbers fill their gaps.
pub proof fn lemma_filled_is_plain(pieces: Seq<Seq<char>>, values: Seq<u64>)
    requires
        plain_pieces(pieces),
    ensures
        is_plain(filled(pieces, values)),
    decreases pieces.len(),
{
    if pieces.len() >= 2 {
        let gap = slot(values, pieces.len() - 2);
        let front = filled(pieces.drop_last(), values);
        lemma_filled_is_plain(pieces.drop_last(), values);
        if 0 <= pieces.len() - 2 < values.len() {
            lemma_decimal_round_trip(values[pieces.len() - 2] as nat);
        }
        assert(is_plain(gap));
        assert(is_plain(pieces.last()));
        assert(is_plain(front + gap + pieces.last()));
    }
}

/// Where the literal texts are plain arithmetic, the outcome of the filled
/// template is the one that the filled text has.
pub proof fn lemma_plain_template_outcome(
    pieces: Seq<Seq<char>>,
    rolls: Seq<u64>,
    outcome: Result<i64, DiceError>,
)
    requires
        plain_pieces(pieces),
        is_outcome(pieces, rolls, outcome),
    ensures
        outcome == plain_outcome(filled(pieces, rolls)),
{
    lemma_filled_is_plain(pieces, rolls);
}

/// What holds of the outcome of a template filled with `rolls`: it is an
/// error just when the filled text has no value, the error is
/// `MalformedExpression`, and on plain arithmetic the outcome is the one
/// that the filled text has.
pub open spec fn is_outcome(pieces: Seq<Seq<char>>, rolls: Seq<u64>, outcome: Result<i64, DiceError>) -> bool {
    is_outcome_of(filled(pieces, rolls), outcome)
}

/// Fills the template with the given totals, one for each dice group, and
/// evaluates the arithmetic that results.
pub fn evaluate_rolled(template: &Template, rolls: &Vec<u64>) -> (outcome: Result<i64, DiceError>)
    ensures
        is_outcome(template.pieces(), rolls@, outcome),
{
    let text = format_dice_string(template, rolls);
    evaluate_text(text.as_str())
}

/// Groups that can all be rolled.
pub open spec fn all_rollable(groups: Seq<RollInfo>) -> bool {
    forall|i: int| 0 <= i < groups.len() ==> (#[trigger] groups[i]).rollable()
}

/// One total for each group, each of them the sum of the faces of one roll
/// of its group, and so a total that the group can give.
pub open spec fn rolls_fit(groups: Seq<RollInfo>, rolls: Seq<u64>) -> bool {
    &&& rolls.len() == groups.len()
    &&& forall|i: int|
        0 <= i < groups.len() ==> (#[trigger] groups[i]).can_total(rolls[i]) && is_roll(
            groups[i].num,
            groups[i].size,
            rolls[i],
        )
}

/// Rolls every group once. The totals come in the order of the groups. If a
/// group cannot be rolled, the error of the first such group is returned.
pub fn roll_groups(groups: &Vec<RollInfo>) -> (rolls: Result<Vec<u64>, DiceError>)
    ensures
        match rolls {
            Ok(r) => all_rollable(groups@) && rolls_fit(groups@, r@),
            Err(e) => exists|i: int|
                0 <= i < groups.len() && !(#[trigger] groups[i]).rollable() && all_rollable(
                    groups@.take(i),
                ) && e == if groups[i].valid() {
                    DiceError::ComplexityOverflow
                } else {
                    DiceError::DegenerateDiceGroup
                },
        },
{
    let mut rolls: Vec<u64> = Vec::new();
    let mut i: usize = 0;
    while i < groups.len()
        invariant
            i <= groups.len(),
            all_rollable(groups@.take(i as int)),
            rolls_fit(groups@.take(i as int), rolls@),
        decreases groups.len() - i,
    {
        match groups[i].roll() {
            Ok(total) => {
                rolls.push(total);
            },
            Err(e) => {
                return Err(e);
            },
        }
        i += 1;
    }
    proof {
        assert(groups@.take(i as int) =~= groups@);
    }
    Ok(rolls)
}

/// Replaces every dice group of the string by the total of one roll of it.
/// A string with a rejected token gives the error of the first such token,
/// and a string with a group whose largest total does not fit 64 bits gives
/// `ComplexityOverflow`. For every other string the text is the string with
/// each group replaced by a total that the group can give.
pub fn replace_dice(string: &str) -> (text: Result<String, DiceError>)
    ensures
        match checked_groups(tokens_of(string@)) {
            Err(e) => text == Err::<String, DiceError>(e),
            Ok(groups) => if all_rollable(groups) {
                &&& text is Ok
                &&& exists|rolls: Seq<u64>| #[trigger]
                    rolls_fit(groups, rolls) && text->Ok_0@ == filled(pieces_of(string@), rolls)
            } else {
                text == Err::<String, DiceError>(DiceError::ComplexityOverflow)
            },
        },
{
    let (template, tokens) = extract_dice_values(string);
    let groups = match check_tokens(&tokens) {
        Ok(groups) => groups,
        Err(e) => {
            return Err(e);
        },
    };
    proof {
        crate::group::lemma_checked_groups(tokens@);
    }
    let rolls = match roll_groups(&groups) {
        Ok(rolls) => rolls,
        Err(e) => {
            return Err(e);
        },
    };
    let text = format_dice_string(&template, &rolls);
    assert(rolls_fit(groups@, rolls@));
    Ok(text)
}

/// Rolls every dice group of the string once and evaluates the arithmetic
/// around the totals, rounding the value toward zero. A string with a
/// rejected token gives the error of the first such token, and a string
/// with a group whose largest total does not fit 64 bits gives
/// `ComplexityOverflow`. For every other string there are totals, one that
/// each group can give, of which the value is the outcome.
pub fn parse_dice_string(string: &str) -> (value: Result<i64, DiceError>)
    ensures
        match checked_groups(tokens_of(string@)) {
            Err(e) => value == Err::<i64, DiceError>(e),
            Ok(groups) => if all_rollable(groups) {
                exists|rolls: Seq<u64>| #[trigger]
                    rolls_fit(groups, rolls) && is_outcome(pieces_of(string@), rolls, value)
            } else {
                value == Err::<i64, DiceError>(DiceError::ComplexityOverflow)
            },
        },
{
    let (template, tokens) = extract_dice_values(string);
    let groups = match check_tokens(&tokens) {
        Ok(groups) => groups,
        Err(e) => {
            return Err(e);
        },
    };
    proof {
        crate::group::lemma_checked_groups(tokens@);
    }
    let rolls = match roll_groups(&groups) {
        Ok(rolls) => rolls,
        Err(e) => {
            return Err(e);
        },
    };
    let value = evaluate_rolled(&template, &rolls);
    assert(rolls_fit(groups@, rolls@));
    value
}

} // verus!
