//! A tabletop-dice expression engine.
//!
//! The engine parses compact dice notation (such as `2d6+3` or `4d6kh3`),
//! rolls the described dice against a random source, applies keep-highest /
//! keep-lowest selection, adds a modifier, and renders the result back to
//! text. A bounded, most-recent-first roll history rounds out the library.

pub mod damage;
pub mod dice_roll;
pub mod dice_roll_op;
pub mod dice_roll_result;
pub mod die;
pub mod history;
pub mod notation;
mod rng;
pub mod selection;
pub mod text;

pub use damage::DamageType;
pub use dice_roll::DiceRoll;
pub use dice_roll::DiceRollError;
pub use dice_roll_op::DiceRollOp;
pub use dice_roll_result::DiceRollResult;
pub use die::Die;
pub use die::DieRollResult;
pub use history::DiceHistoryEntry;
pub use history::DiceHistoryStore;

use vstd::prelude::*;

verus! {

/// Parses an expression in the extended dice notation: `<count>d<sides>`
/// with an optional `kh<n>` / `kl<n>` selection suffix and an optional
/// signed modifier.
pub fn parse_dice_expression(expression: &str) -> (r: Result<DiceRoll, String>)
    ensures
        dice_roll::from_expression_ensures(expression@, r),
{
    DiceRoll::from_expression(expression)
}

/// Parses an expression and rolls it at once. An expression whose worst-case
/// total would not fit a 32-bit result is reported as an error rather than
/// rolled.
pub fn roll_dice(expression: &str) -> (r: Result<DiceRollResult, String>)
    ensures
        dice_roll::roll_dice_ensures(expression@, r),
{
    let group = match DiceRoll::from_expression(expression) {
        Ok(g) => g,
        Err(e) => {
            return Err(e);
        },
    };
    proof {
        dice_roll::lemma_parsed_wf(text::trim_spec(expression@));
    }
    if !group.roll_fits() {
        return Err(dice_roll::roll_too_large_message());
    }
    Ok(group.roll())
}

} // verus!
