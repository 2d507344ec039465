//! Dice notation: parsing terms such as `2d20dl1 + 1d6 - 3d4dh1`, rolling
//! them, and rendering an annotated breakdown with the signed total.

pub mod dice;
pub mod eval;
pub mod outcome;
pub mod parse;
pub mod term;

pub use term::{DropDie, Roll, RollError, States};
pub use outcome::{
    add_to_total, add_to_total_and_output, consume_input_to_output,
    consume_input_to_output_without_error, evaluate_rolls,
};
pub use parse::{consume_input_to_rolls, parse_trimmed};
