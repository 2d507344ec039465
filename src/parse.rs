use vstd::prelude::*;
use vstd::string::*;

use crate::term::{fresh_term, DropDie, Roll, RollError, States, Term};

verus! {

/// Where the parser stands after a prefix of the input: its state, the term
/// being built, and the terms already finished.
pub struct ParseModel {
    pub state: States,
    pub cur: Term,
    pub done: Seq<Term>,
}

pub open spec fn is_digit(c: char) -> bool {
    '0' <= c && c <= '9'
}

pub open spec fn digit_value(c: char) -> int {
    (c as u32) - ('0' as u32)
}

/// `x * 10 + d`, the next value of a decimal being read digit by digit.
pub open spec fn shift_in(x: int, c: char) -> int {
    x * 10 + digit_value(c)
}

pub open spec fn with_state(m: ParseModel, s: States) -> ParseModel {
    ParseModel { state: s, cur: m.cur, done: m.done }
}

pub open spec fn with_cur(m: ParseModel, t: Term) -> ParseModel {
    ParseModel { state: m.state, cur: t, done: m.done }
}

pub open spec fn with_count(t: Term, count: usize) -> Term {
    Term { count, sides: t.sides, sign: t.sign, drop: t.drop, results: t.results }
}

pub open spec fn with_sides(t: Term, sides: u8) -> Term {
    Term { count: t.count, sides, sign: t.sign, drop: t.drop, results: t.results }
}

pub open spec fn with_sign(t: Term, sign: i8) -> Term {
    Term { count: t.count, sides: t.sides, sign, drop: t.drop, results: t.results }
}

pub open spec fn with_drop(t: Term, drop: Option<DropDie>) -> Term {
    Term { count: t.count, sides: t.sides, sign: t.sign, drop, results: t.results }
}

/// Finish the current term and start a fresh one with the given sign.
pub open spec fn flush(m: ParseModel, s: States, sign: i8) -> ParseModel {
    ParseModel { state: s, cur: with_sign(fresh_term(), sign), done: m.done.push(m.cur) }
}

/// One transition of the parser on one character.
pub open spec fn step(m: ParseModel, c: char) -> Result<ParseModel, RollError> {
    match m.state {
        States::ObtainingNumberOfDice => {
            if is_digit(c) {
                let v = shift_in(m.cur.count as int, c);
                if v <= usize::MAX {
                    Ok(with_cur(m, with_count(m.cur, v as usize)))
                } else {
                    Err(RollError::NumberTooLarge)
                }
            } else if c == 'd' {
                let n: usize = if m.cur.count == 0 { 1 } else { m.cur.count };
                Ok(with_state(with_cur(m, with_count(m.cur, n)), States::ObtainingDiceSides))
            } else if c == ' ' {
                Ok(m)
            } else {
                Err(RollError::UnknownCharacter)
            }
        },
        States::ObtainingDiceSides => {
            if is_digit(c) {
                let v = shift_in(m.cur.sides as int, c);
                if v <= u8::MAX {
                    Ok(with_cur(m, with_sides(m.cur, v as u8)))
                } else {
                    Err(RollError::NumberTooLarge)
                }
            } else if c == ' ' {
                Ok(flush(m, States::ObtainingNextOperation, 1i8))
            } else if c == '+' {
                Ok(flush(m, States::ObtainingNumberOfDice, 1i8))
            } else if c == '-' {
                Ok(flush(m, States::ObtainingNumberOfDice, -1i8))
            } else if c == 'd' {
                Ok(with_state(m, States::ObtainingDropDieType))
            } else {
                Err(RollError::UnknownCharacter)
            }
        },
        States::ObtainingDropDieType => {
            if c == 'l' {
                Ok(
                    with_state(
                        with_cur(m, with_drop(m.cur, Some(DropDie::DropLowest(0)))),
                        States::ObtainingDropDieNum,
                    ),
                )
            } else if c == 'h' {
                Ok(
                    with_state(
                        with_cur(m, with_drop(m.cur, Some(DropDie::DropHighest(0)))),
                        States::ObtainingDropDieNum,
                    ),
                )
            } else {
                Err(RollError::UnknownCharacter)
            }
        },
        States::ObtainingDropDieNum => {
            if is_digit(c) {
                match m.cur.drop {
                    Some(d) => {
                        let v = shift_in(d.spec_amount() as int, c);
                        if v <= usize::MAX {
                            let nd = match d {
                                DropDie::DropLowest(_) => DropDie::DropLowest(v as usize),
                                DropDie::DropHighest(_) => DropDie::DropHighest(v as usize),
                            };
                            Ok(with_cur(m, with_drop(m.cur, Some(nd))))
                        } else {
                            Err(RollError::NumberTooLarge)
                        }
                    },
                    None => Err(RollError::MissingDropType),
                }
            } else {
                // The character that ends a drop count is consumed here.
                Ok(flush(m, States::ObtainingNextOperation, 1i8))
            }
        },
        States::ObtainingNextOperation => {
            if c == ' ' {
                Ok(m)
            } else if c == '+' {
                Ok(with_state(m, States::ObtainingNumberOfDice))
            } else if c == '-' {
                Ok(with_state(with_cur(m, with_sign(m.cur, -1i8)), States::ObtainingNumberOfDice))
            } else {
                Err(RollError::UnknownCharacter)
            }
        },
    }
}

pub open spec fn start() -> ParseModel {
    ParseModel { state: States::ObtainingNumberOfDice, cur: fresh_term(), done: Seq::empty() }
}

/// The parser after consuming `s`, left to right.
pub open spec fn run(s: Seq<char>) -> Result<ParseModel, RollError>
    decreases s.len(),
{
    if s.len() == 0 {
        Ok(start())
    } else {
        match run(s.drop_last()) {
            Ok(m) => step(m, s.last()),
            Err(e) => Err(e),
        }
    }
}

/// The terms that `s` denotes: at the end of input the term in progress is
/// always finished, even when it is empty.
pub open spec fn parse_terms(s: Seq<char>) -> Result<Seq<Term>, RollError> {
    match run(s) {
        Ok(m) => Ok(m.done.push(m.cur)),
        Err(e) => Err(e),
    }
}

/// Once a prefix fails, the whole input fails with the same error.
pub proof fn lemma_error_persists(s: Seq<char>, k: int)
    requires
        0 <= k <= s.len(),
    ensures
        run(s.subrange(0, k)) is Err ==> run(s) == run(s.subrange(0, k)),
    decreases s.len() - k,
{
    if k < s.len() && run(s.subrange(0, k)) is Err {
        assert(s.subrange(0, k + 1).drop_last() =~= s.subrange(0, k));
        lemma_error_persists(s, k + 1);
    }
    assert(s.subrange(0, s.len() as int) =~= s);
}

pub open spec fn views(v: Seq<Roll>) -> Seq<Term> {
    v.map_values(|r: Roll| r@)
}

pub open spec fn parsed_view(r: Result<Vec<Roll>, RollError>) -> Result<Seq<Term>, RollError> {
    match r {
        Ok(v) => Ok(views(v@)),
        Err(e) => Err(e),
    }
}

pub fn digit_of(c: char) -> (r: u8)
    requires
        is_digit(c),
    ensures
        r as int == digit_value(c),
        r < 10,
{
    (c as u32 - '0' as u32) as u8
}

/// Parses dice notation that has already been trimmed, following the
/// parser's transition table character by character.
pub fn parse_trimmed(input: &str) -> (r: Result<Vec<Roll>, RollError>)
    ensures
        parsed_view(r) == parse_terms(input@),
{
    let mut rolls: Vec<Roll> = Vec::new();
    let mut new_roll = Roll::new();
    let mut state = States::ObtainingNumberOfDice;
    let n = input.unicode_len();
    let mut i: usize = 0;
    assert(input@.subrange(0, 0) =~= Seq::<char>::empty());
    assert(views(rolls@) =~= Seq::<Term>::empty());
    while i < n
        invariant
            n == input@.len(),
            i <= n,
            run(input@.subrange(0, i as int)) == Ok::<ParseModel, RollError>(
                ParseModel { state, cur: new_roll@, done: views(rolls@) },
            ),
        decreases n - i,
    {
        let c = input.get_char(i);
        let ghost before = ParseModel { state, cur: new_roll@, done: views(rolls@) };
        assert(input@.subrange(0, i + 1).drop_last() =~= input@.subrange(0, i as int));
        assert(input@.subrange(0, i + 1).last() == c);
        proof {
            lemma_error_persists(input@, i + 1);
        }
        let digit = '0' <= c && c <= '9';
        let ghost done_before = views(rolls@);
        match state {
            States::ObtainingNumberOfDice => {
                if digit {
                    let d = digit_of(c);
                    match new_roll.num_rolls.checked_mul(10) {
                        Some(x) => match x.checked_add(d as usize) {
                            Some(y) => {
                                new_roll.num_rolls = y;
                            },
                            None => {
                                return Err(RollError::NumberTooLarge);
                            },
                        },
                        None => {
                            return Err(RollError::NumberTooLarge);
                        },
                    }
                } else if c == 'd' {
                    state = States::ObtainingDiceSides;
                    if new_roll.num_rolls == 0 {
                        new_roll.num_rolls = 1;
                    }
                } else if c != ' ' {
                    return Err(RollError::UnknownCharacter);
                }
            },
            States::ObtainingDiceSides => {
                if digit {
                    let d = digit_of(c);
                    match new_roll.dice_sides.checked_mul(10) {
                        Some(x) => match x.checked_add(d) {
                            Some(y) => {
                                new_roll.dice_sides = y;
                            },
                            None => {
                                return Err(RollError::NumberTooLarge);
                            },
                        },
                        None => {
                            return Err(RollError::NumberTooLarge);
                        },
                    }
                } else if c == ' ' || c == '+' || c == '-' {
                    rolls.push(new_roll);
                    assert(views(rolls@) =~= done_before.push(before.cur));
                    new_roll = Roll::new();
                    if c == ' ' {
                        state = States::ObtainingNextOperation;
                    } else {
                        state = States::ObtainingNumberOfDice;
                        if c == '-' {
                            new_roll.multiplier = -1;
                        }
                    }
                } else if c == 'd' {
                    state = States::ObtainingDropDieType;
                } else {
                    return Err(RollError::UnknownCharacter);
                }
            },
            States::ObtainingDropDieType => {
                if c == 'l' {
                    new_roll.drop_die = Some(DropDie::DropLowest(0));
                    state = States::ObtainingDropDieNum;
                } else if c == 'h' {
                    new_roll.drop_die = Some(DropDie::DropHighest(0));
                    state = States::ObtainingDropDieNum;
                } else {
                    return Err(RollError::UnknownCharacter);
                }
            },
            States::ObtainingDropDieNum => {
                if digit {
                    let d = digit_of(c);
                    match new_roll.drop_die {
                        Some(drop) => {
                            let next = match drop.amount().checked_mul(10) {
                                Some(x) => x.checked_add(d as usize),
                                None => None,
                            };
                            match next {
                                Some(y) => {
                                    new_roll.drop_die = match drop {
                                        DropDie::DropLowest(_) => Some(DropDie::DropLowest(y)),
                                        DropDie::DropHighest(_) => Some(DropDie::DropHighest(y)),
                                    };
                                },
                                None => {
                                    return Err(RollError::NumberTooLarge);
                                },
                            }
                        },
                        None => {
                            return Err(RollError::MissingDropType);
                        },
                    }
                } else {
                    rolls.push(new_roll);
                    assert(views(rolls@) =~= done_before.push(before.cur));
                    new_roll = Roll::new();
                    state = States::ObtainingNextOperation;
                }
            },
            States::ObtainingNextOperation => {
                if c == '+' {
                    state = States::ObtainingNumberOfDice;
                } else if c == '-' {
                    new_roll.multiplier = -1;
                    state = States::ObtainingNumberOfDice;
                } else if c != ' ' {
                    return Err(RollError::UnknownCharacter);
                }
            },
        }
        assert(run(input@.subrange(0, i + 1)) == Ok::<ParseModel, RollError>(
            ParseModel { state, cur: new_roll@, done: views(rolls@) },
        ));
        i = i + 1;
    }
    assert(input@.subrange(0, n as int) =~= input@);
    let ghost done_before = views(rolls@);
    let ghost last = new_roll@;
    rolls.push(new_roll);
    assert(views(rolls@) =~= done_before.push(last));
    Ok(rolls)
}

/// What `str::trim` leaves of `s`.
pub uninterp spec fn trimmed(s: Seq<char>) -> Seq<char>;

/// Relies on std's `str::trim`: leading and trailing whitespace removed,
/// a function of the characters alone.
#[verifier::external_body]
fn trim_text(s: &str) -> (r: &str)
    ensures
        r@ == trimmed(s@),
{
    s.trim()
}

/// Parses dice notation: surrounding whitespace is ignored, then the
/// characters are read as `parse_trimmed` reads them.
pub fn consume_input_to_rolls(input: &String) -> (r: Result<Vec<Roll>, RollError>)
    ensures
        parsed_view(r) == parse_terms(trimmed(input@)),
{
    parse_trimmed(trim_text(input.as_str()))
}

/// The number of `+` and `-` characters in `s`.
pub open spec fn sign_count(s: Seq<char>) -> nat
    decreases s.len(),
{
    if s.len() == 0 {
        0
    } else {
        sign_count(s.drop_last()) + if s.last() == '+' || s.last() == '-' {
            1nat
        } else {
            0nat
        }
    }
}

/// Every drop count in `s` is followed by a space or by the end of input.
pub open spec fn drop_counts_end_in_space(s: Seq<char>) -> bool {
    forall|k: int|
        0 <= k < s.len() && (#[trigger] run(s.subrange(0, k))) is Ok && run(
            s.subrange(0, k),
        )->Ok_0.state == States::ObtainingDropDieNum && !is_digit(s[k]) ==> s[k] == ' '
}

proof fn lemma_term_count_prefix(s: Seq<char>)
    requires
        run(s) is Ok,
        drop_counts_end_in_space(s),
    ensures
        ({
            let m = run(s)->Ok_0;
            &&& m.state == States::ObtainingNextOperation ==> m.done.len() == sign_count(s) + 1
                && s.len() > 0 && s.last() == ' '
            &&& m.state != States::ObtainingNextOperation ==> m.done.len() == sign_count(s)
        }),
    decreases s.len(),
{
    if s.len() > 0 {
        let p = s.drop_last();
        assert forall|k: int|
            0 <= k < p.len() && (#[trigger] run(p.subrange(0, k))) is Ok && run(
                p.subrange(0, k),
            )->Ok_0.state == States::ObtainingDropDieNum && !is_digit(p[k]) implies p[k] == ' ' by {
            assert(p.subrange(0, k) =~= s.subrange(0, k));
            assert(run(s.subrange(0, k)) is Ok);
        }
        lemma_term_count_prefix(p);
        assert(s.subrange(0, p.len() as int) =~= p);
        assert(run(s.subrange(0, p.len() as int)) is Ok);
    }
}

/// For a well-formed input whose last character is not a space and whose
/// drop counts are each followed by a space or the end of input, there is one
/// term more than there are `+` and `-` signs: the segments that signs and
/// spaces separate, a trailing empty term included.
pub proof fn lemma_term_count(s: Seq<char>)
    requires
        parse_terms(s) is Ok,
        s.len() > 0 ==> s.last() != ' ',
        drop_counts_end_in_space(s),
    ensures
        parse_terms(s)->Ok_0.len() == sign_count(s) + 1,
{
    lemma_term_count_prefix(s);
}

/// The parser reads a drop count only after a drop type, so it never
/// reports a missing drop type.
pub proof fn lemma_drop_type_precedes_count(s: Seq<char>)
    ensures
        run(s) is Ok && run(s)->Ok_0.state == States::ObtainingDropDieNum ==> run(
            s,
        )->Ok_0.cur.drop is Some,
        parse_terms(s) != Err::<Seq<Term>, RollError>(RollError::MissingDropType),
    decreases s.len(),
{
    if s.len() > 0 {
        lemma_drop_type_precedes_count(s.drop_last());
    }
}

} // verus!
