use vstd::prelude::*;

verus! {

/// Which dice a term discards before summing, and how many.
#[derive(Debug, Clone, Copy, PartialEq, Eq, Structural)]
pub enum DropDie {
    DropLowest(usize),
    DropHighest(usize),
}

impl DropDie {
    /// How many dice this modifier discards.
    pub open spec fn spec_amount(&self) -> usize {
        match *self {
            DropDie::DropLowest(n) => n,
            DropDie::DropHighest(n) => n,
        }
    }

    #[verifier::when_used_as_spec(spec_amount)]
    pub fn amount(&self) -> (r: usize)
        ensures
            r == self.spec_amount(),
    {
        match self {
            DropDie::DropLowest(n) => *n,
            DropDie::DropHighest(n) => *n,
        }
    }
}

/// The states of the parser's finite state machine.
#[derive(Debug, Clone, Copy, PartialEq, Eq, Structural)]
pub enum States {
    ObtainingNumberOfDice,
    ObtainingDiceSides,
    ObtainingDropDieType,
    ObtainingDropDieNum,
    ObtainingNextOperation,
}

/// Why parsing or rolling failed.
#[derive(Debug, Clone, Copy, PartialEq, Eq, Structural)]
pub enum RollError {
    /// A character that the parser's current state does not accept.
    UnknownCharacter,
    /// A number in the notation does not fit its field.
    NumberTooLarge,
    /// The parser reached the drop count without a drop type (a parser bug).
    MissingDropType,
    /// A term's sign is neither 1 nor -1 (a consistency failure).
    BadMultiplier,
    /// A term asks to roll dice that have no sides.
    NoSides,
    /// The running total left the range of `i64`.
    TotalOutOfRange,
}

/// The description of each error.
pub open spec fn error_text(e: RollError) -> Seq<char> {
    match e {
        RollError::UnknownCharacter => "Unknown character encountered"@,
        RollError::NumberTooLarge => "Number too large"@,
        RollError::MissingDropType => "Reached the drop count without a drop type"@,
        RollError::BadMultiplier => "Multiplier somehow obtained as neither 1 or -1"@,
        RollError::NoSides => "Cannot roll a die with no sides"@,
        RollError::TotalOutOfRange => "Total out of range"@,
    }
}

impl RollError {
    /// A short description of the error.
    pub fn message(&self) -> (r: String)
        ensures
            r@ == error_text(*self),
    {
        let s: &str = match self {
            RollError::UnknownCharacter => "Unknown character encountered",
            RollError::NumberTooLarge => "Number too large",
            RollError::MissingDropType => "Reached the drop count without a drop type",
            RollError::BadMultiplier => "Multiplier somehow obtained as neither 1 or -1",
            RollError::NoSides => "Cannot roll a die with no sides",
            RollError::TotalOutOfRange => "Total out of range",
        };
        proof {
            reveal_strlit("Unknown character encountered");
            reveal_strlit("Number too large");
            reveal_strlit("Reached the drop count without a drop type");
            reveal_strlit("Multiplier somehow obtained as neither 1 or -1");
            reveal_strlit("Cannot roll a die with no sides");
            reveal_strlit("Total out of range");
        }
        s.to_owned()
    }
}

/// One signed dice term: `count` dice of `sides` faces, an optional drop
/// modifier, and (after evaluation) the dice that were kept.
#[derive(Debug)]
pub struct Roll {
    /// The number of dice to be rolled.
    pub num_rolls: usize,
    /// The sides of each die.
    pub dice_sides: u8,
    /// Whether the term is added (1) to or subtracted (-1) from the total.
    pub multiplier: i8,
    /// Whether the lowest or highest dice are dropped, and how many.
    pub drop_die: Option<DropDie>,
    /// The results of the individual dice.
    pub results: Vec<u32>,
}

/// The mathematical content of a `Roll`.
pub struct Term {
    pub count: usize,
    pub sides: u8,
    pub sign: i8,
    pub drop: Option<DropDie>,
    pub results: Seq<u32>,
}

/// A fresh term: no dice yet, added to the total, no drop, no results.
pub open spec fn fresh_term() -> Term {
    Term { count: 0, sides: 0, sign: 1, drop: None, results: Seq::empty() }
}

impl View for Roll {
    type V = Term;

    open spec fn view(&self) -> Term {
        Term {
            count: self.num_rolls,
            sides: self.dice_sides,
            sign: self.multiplier,
            drop: self.drop_die,
            results: self.results@,
        }
    }
}

impl Roll {
    pub fn new() -> (r: Self)
        ensures
            r@ == fresh_term(),
    {
        Roll { num_rolls: 0, dice_sides: 0, multiplier: 1, drop_die: None, results: Vec::new() }
    }
}

} // verus!
