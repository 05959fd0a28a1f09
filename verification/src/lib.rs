//! Dice notation inside ordinary arithmetic: one random roll of a string such
//! as `2d6 + 4`, or the exact distribution of every total it can produce.

pub mod decimal;
pub mod distribution;
pub mod error;
pub mod formula;
pub mod group;
pub mod notation;
pub mod outcomes;
mod random;
pub mod roll;
pub mod text;

pub use crate::distribution::{
    distribution_rows, roll_distribution, roll_over_percentage, roll_percentage, roll_under_percentage,
    DiceDistribution, DistributionRow, Fraction, ShareKind,
};
pub use crate::error::DiceError;
pub use crate::formula::{evaluate_text, outcome_of_evaluation, truncate_bits};
pub use crate::group::{check_tokens, draw_faces, roll_dice, total_of_faces, RollInfo};
pub use crate::notation::{extract_dice_values, format_dice_string, DiceToken, Template};
pub use crate::outcomes::{pick_combination, possible_rolls, roll_complexity};
pub use crate::roll::{evaluate_rolled, parse_dice_string, replace_dice, roll_groups};
