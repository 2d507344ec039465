use rand::rngs::ThreadRng;
use vstd::prelude::*;
use vstd::string::*;

use crate::dice::{roll_dice, thread_rng};
use crate::eval::{
    add_rolled_to_total, add_rolled_to_total_and_output, dropped_count, fair_draws, fits,
    lemma_marked_term_longer, push_signed,
    signed_decimal, tallied, tally, term_text, settled,
};
use crate::parse::{consume_input_to_rolls, parse_terms, trimmed, views};
use crate::term::{error_text, Roll, RollError, Term};

verus! {

/// Rolls the dice of one term and adds its signed sum to `total`, for
/// whatever values the dice showed.
pub fn add_to_total(roll: &mut Roll, total: &mut i64, rng: &mut ThreadRng) -> (r: Result<
    (),
    RollError,
>)
    ensures
        exists|draws: Seq<u32>|
            #![trigger fair_draws(old(roll)@, draws)]
            fair_draws(old(roll)@, draws) && tallied(
                old(roll)@,
                draws,
                *old(total) as int,
                r,
                *final(total) as int,
                final(roll)@,
            ),
{
    let draws = if roll.num_rolls > 0 && roll.dice_sides > 0 {
        roll_dice(rng, roll.num_rolls, roll.dice_sides)
    } else {
        Vec::new()
    };
    let r = add_rolled_to_total(roll, &draws, total);
    assert(fair_draws(old(roll)@, draws@));
    r
}

/// Rolls the dice of one term, adds its signed sum to `total` and appends
/// its annotated rendering to `output`, for whatever values the dice showed.
pub fn add_to_total_and_output(
    index: usize,
    roll: &mut Roll,
    total: &mut i64,
    output: &mut String,
    rng: &mut ThreadRng,
    skip_dropped: bool,
    colour: bool,
) -> (r: Result<(), RollError>)
    ensures
        exists|draws: Seq<u32>|
            #![trigger fair_draws(old(roll)@, draws)]
            fair_draws(old(roll)@, draws) && tallied(
                old(roll)@,
                draws,
                *old(total) as int,
                r,
                *final(total) as int,
                final(roll)@,
            ) && final(output)@ == old(output)@ + (if r is Ok {
                term_text(index as int, old(roll)@, draws, skip_dropped, colour)
            } else {
                Seq::empty()
            }),
{
    let draws = if roll.num_rolls > 0 && roll.dice_sides > 0 {
        roll_dice(rng, roll.num_rolls, roll.dice_sides)
    } else {
        Vec::new()
    };
    let r = add_rolled_to_total_and_output(
        index,
        roll,
        &draws,
        total,
        output,
        skip_dropped,
        colour,
    );
    assert(fair_draws(old(roll)@, draws@));
    r
}

/// The total of the terms, tallied in order from zero, or the first error.
pub open spec fn run_total(terms: Seq<Term>, draws: Seq<Seq<u32>>) -> Result<int, RollError>
    decreases terms.len(),
{
    if terms.len() == 0 {
        Ok(0)
    } else {
        match run_total(terms.drop_last(), draws) {
            Ok(t) => tally(terms.last(), draws[terms.len() - 1], t),
            Err(e) => Err(e),
        }
    }
}

/// The rendered terms, in order.
pub open spec fn long_text(
    terms: Seq<Term>,
    draws: Seq<Seq<u32>>,
    skip_dropped: bool,
    colour: bool,
) -> Seq<char>
    decreases terms.len(),
{
    if terms.len() == 0 {
        Seq::empty()
    } else {
        long_text(terms.drop_last(), draws, skip_dropped, colour) + term_text(
            terms.len() - 1,
            terms.last(),
            draws[terms.len() - 1],
            skip_dropped,
            colour,
        )
    }
}

pub open spec fn arrow_text() -> Seq<char> {
    seq![' ', '=', '>', ' ']
}

/// The output for the terms with the given draws: the total alone in short
/// mode, else the rendered terms, ` => ` and the total.
pub open spec fn outcome_text(
    terms: Seq<Term>,
    draws: Seq<Seq<u32>>,
    skip_dropped: bool,
    short_output: bool,
    colour: bool,
) -> Result<Seq<char>, RollError> {
    match run_total(terms, draws) {
        Ok(t) => Ok(
            if short_output {
                signed_decimal(t)
            } else {
                long_text(terms, draws, skip_dropped, colour) + arrow_text() + signed_decimal(t)
            },
        ),
        Err(e) => Err(e),
    }
}

pub open spec fn draw_views(d: Seq<Vec<u32>>) -> Seq<Seq<u32>> {
    d.map_values(|v: Vec<u32>| v@)
}

pub open spec fn text_view(r: Result<String, RollError>) -> Result<Seq<char>, RollError> {
    match r {
        Ok(s) => Ok(s@),
        Err(e) => Err(e),
    }
}

/// Whether `draws` can stand for the dice of every term.
pub open spec fn all_fair(terms: Seq<Term>, draws: Seq<Seq<u32>>) -> bool {
    &&& draws.len() == terms.len()
    &&& forall|i: int| 0 <= i < terms.len() ==> #[trigger] fair_draws(terms[i], draws[i])
}

pub proof fn lemma_total_error_persists(terms: Seq<Term>, draws: Seq<Seq<u32>>, k: int)
    requires
        0 <= k <= terms.len(),
    ensures
        run_total(terms.subrange(0, k), draws) is Err ==> run_total(terms, draws) == run_total(
            terms.subrange(0, k),
            draws,
        ),
    decreases terms.len() - k,
{
    if k < terms.len() && run_total(terms.subrange(0, k), draws) is Err {
        assert(terms.subrange(0, k + 1).drop_last() =~= terms.subrange(0, k));
        lemma_total_error_persists(terms, draws, k + 1);
    }
    assert(terms.subrange(0, terms.len() as int) =~= terms);
}

/// Evaluates the terms in order with the given draws (one list per term)
/// and returns the output; on success each term keeps its surviving draws.
pub fn evaluate_rolls(
    rolls: &mut Vec<Roll>,
    draws: &Vec<Vec<u32>>,
    skip_dropped: bool,
    short_output: bool,
    colour: bool,
) -> (r: Result<String, RollError>)
    requires
        draws@.len() == old(rolls)@.len(),
        forall|i: int|
            0 <= i < draws@.len() ==> fits(#[trigger] old(rolls)@[i]@, draws@[i]@),
    ensures
        text_view(r) == outcome_text(
            views(old(rolls)@),
            draw_views(draws@),
            skip_dropped,
            short_output,
            colour,
        ),
        final(rolls)@.len() == old(rolls)@.len(),
        r is Ok ==> forall|i: int|
            0 <= i < final(rolls)@.len() ==> #[trigger] final(rolls)@[i]@ == settled(
                old(rolls)@[i]@,
                draws@[i]@,
            ),
{
    let ghost terms = views(old(rolls)@);
    let ghost dv = draw_views(draws@);
    let n = rolls.len();
    let mut total: i64 = 0;
    let mut output = String::new();
    let mut i: usize = 0;
    assert(terms.subrange(0, 0) =~= Seq::<Term>::empty());
    while i < n
        invariant
            n == rolls@.len(),
            n == old(rolls)@.len(),
            n == draws@.len(),
            terms == views(old(rolls)@),
            dv == draw_views(draws@),
            i <= n,
            forall|j: int| 0 <= j < draws@.len() ==> fits(#[trigger] old(rolls)@[j]@, draws@[j]@),
            forall|j: int|
                0 <= j < i ==> #[trigger] rolls@[j]@ == settled(old(rolls)@[j]@, draws@[j]@),
            forall|j: int| i <= j < n ==> #[trigger] rolls@[j] == old(rolls)@[j],
            run_total(terms.subrange(0, i as int), dv) == Ok::<int, RollError>(total as int),
            !short_output ==> output@ == long_text(
                terms.subrange(0, i as int),
                dv,
                skip_dropped,
                colour,
            ),
        decreases n - i,
    {
        let ghost sub = terms.subrange(0, i + 1);
        assert(sub.drop_last() =~= terms.subrange(0, i as int));
        assert(sub.last() == old(rolls)@[i as int]@);
        assert(dv[i as int] == draws@[i as int]@);
        proof {
            lemma_total_error_persists(terms, dv, i + 1);
        }
        let ghost before = rolls@;
        let r = if short_output {
            add_rolled_to_total(&mut rolls[i], &draws[i], &mut total)
        } else {
            add_rolled_to_total_and_output(
                i,
                &mut rolls[i],
                &draws[i],
                &mut total,
                &mut output,
                skip_dropped,
                colour,
            )
        };
        match r {
            Ok(()) => {},
            Err(e) => {
                return Err(e);
            },
        }
        assert forall|j: int| 0 <= j < i + 1 implies #[trigger] rolls@[j]@ == settled(
            old(rolls)@[j]@,
            draws@[j]@,
        ) by {
            if j < i {
                assert(rolls@[j] == before[j]);
            }
        }
        i = i + 1;
    }
    assert(terms.subrange(0, n as int) =~= terms);
    if short_output {
        let mut text = String::new();
        push_signed(&mut text, total);
        assert(text@ =~= signed_decimal(total as int));
        Ok(text)
    } else {
        proof { reveal_strlit(" => "); }
        output.append(" => ");
        push_signed(&mut output, total);
        assert(output@ =~= long_text(terms, dv, skip_dropped, colour) + arrow_text()
            + signed_decimal(total as int));
        Ok(output)
    }
}

/// Parses dice notation, rolls every term and returns the output: the
/// parse error, or the output for some values that the dice can show.
pub fn consume_input_to_output(
    input: &String,
    skip_dropped: bool,
    short_output: bool,
    colour: bool,
) -> (r: Result<String, RollError>)
    ensures
        match parse_terms(trimmed(input@)) {
            Err(e) => r == Err::<String, RollError>(e),
            Ok(terms) => exists|draws: Seq<Seq<u32>>|
                #[trigger] all_fair(terms, draws) && text_view(r) == outcome_text(
                    terms,
                    draws,
                    skip_dropped,
                    short_output,
                    colour,
                ),
        },
{
    let mut rolls = match consume_input_to_rolls(input) {
        Ok(v) => v,
        Err(e) => {
            return Err(e);
        },
    };
    let ghost terms = views(rolls@);
    let mut rng = thread_rng();
    let mut draws: Vec<Vec<u32>> = Vec::new();
    let mut i: usize = 0;
    while i < rolls.len()
        invariant
            terms == views(rolls@),
            i <= rolls@.len(),
            draws@.len() == i,
            forall|j: int| 0 <= j < i ==> #[trigger] fair_draws(rolls@[j]@, draws@[j]@),
        decreases rolls@.len() - i,
    {
        let d = if rolls[i].num_rolls > 0 && rolls[i].dice_sides > 0 {
            roll_dice(&mut rng, rolls[i].num_rolls, rolls[i].dice_sides)
        } else {
            Vec::new()
        };
        draws.push(d);
        i = i + 1;
    }
    assert forall|j: int| 0 <= j < draws@.len() implies fits(
        #[trigger] rolls@[j]@,
        draws@[j]@,
    ) by {
        assert(fair_draws(rolls@[j]@, draws@[j]@));
    }
    assert forall|j: int| 0 <= j < terms.len() implies #[trigger] fair_draws(
        terms[j],
        draw_views(draws@)[j],
    ) by {
        assert(fair_draws(rolls@[j]@, draws@[j]@));
    }
    let out = evaluate_rolls(&mut rolls, &draws, skip_dropped, short_output, colour);
    assert(all_fair(terms, draw_views(draws@)));
    // The draws made here witness the existential of the postcondition.
    assert(match parse_terms(trimmed(input@)) {
            Err(e) => out == Err::<String, RollError>(e),
            Ok(tt) => exists|draws: Seq<Seq<u32>>|
                #[trigger] all_fair(tt, draws) && text_view(out) == outcome_text(
                    tt,
                    draws,
                    skip_dropped,
                    short_output,
                    colour,
                ),
        });
    out
}

/// The output, or the description of the error when there is one.
pub open spec fn shown_outcome(o: Result<Seq<char>, RollError>) -> Seq<char> {
    match o {
        Ok(s) => s,
        Err(e) => error_text(e),
    }
}

/// As `consume_input_to_output` without colour, with an error turned into
/// its description.
pub fn consume_input_to_output_without_error(
    input: String,
    skip_dropped: bool,
    short_output: bool,
) -> (r: String)
    ensures
        match parse_terms(trimmed(input@)) {
            Err(e) => r@ == error_text(e),
            Ok(terms) => exists|draws: Seq<Seq<u32>>|
                #[trigger] all_fair(terms, draws) && r@ == shown_outcome(
                    outcome_text(terms, draws, skip_dropped, short_output, false),
                ),
        },
{
    match consume_input_to_output(&input, skip_dropped, short_output, false) {
        Ok(x) => x,
        Err(e) => e.message(),
    }
}

/// With the same draws, short output succeeds exactly when long output does,
/// and is the decimal total with which long output ends.
pub proof fn lemma_short_output_is_long_total(
    terms: Seq<Term>,
    draws: Seq<Seq<u32>>,
    skip_dropped: bool,
    colour: bool,
)
    ensures
        outcome_text(terms, draws, skip_dropped, true, colour) is Ok <==> outcome_text(
            terms,
            draws,
            skip_dropped,
            false,
            colour,
        ) is Ok,
        outcome_text(terms, draws, skip_dropped, true, colour) is Ok ==> outcome_text(
            terms,
            draws,
            skip_dropped,
            false,
            colour,
        )->Ok_0 == long_text(terms, draws, skip_dropped, colour) + arrow_text() + outcome_text(
            terms,
            draws,
            skip_dropped,
            true,
            colour,
        )->Ok_0,
{
}

/// With the same draws, skip-dropped and mark-dropped rendering fail alike
/// and end with the same total.
pub proof fn lemma_skip_and_mark_share_total(
    terms: Seq<Term>,
    draws: Seq<Seq<u32>>,
    colour: bool,
)
    ensures
        outcome_text(terms, draws, true, true, colour) == outcome_text(
            terms,
            draws,
            false,
            true,
            colour,
        ),
        match run_total(terms, draws) {
            Ok(t) => outcome_text(terms, draws, true, false, colour) == Ok::<
                Seq<char>,
                RollError,
            >(long_text(terms, draws, true, colour) + arrow_text() + signed_decimal(t))
                && outcome_text(terms, draws, false, false, colour) == Ok::<
                Seq<char>,
                RollError,
            >(long_text(terms, draws, false, colour) + arrow_text() + signed_decimal(t)),
            Err(e) => outcome_text(terms, draws, true, false, colour) == Err::<
                Seq<char>,
                RollError,
            >(e) && outcome_text(terms, draws, false, false, colour) == Err::<
                Seq<char>,
                RollError,
            >(e),
        },
{
}

/// Whether some term with dice drops at least one of them.
pub open spec fn drops_some(terms: Seq<Term>, draws: Seq<Seq<u32>>) -> bool {
    exists|i: int|
        0 <= i < terms.len() && (#[trigger] terms[i]).count > 0 && dropped_count(
            draws[i],
            terms[i].drop,
        ) >= 1
}

proof fn lemma_marked_long_text_longer(terms: Seq<Term>, draws: Seq<Seq<u32>>, colour: bool)
    ensures
        long_text(terms, draws, false, colour).len() >= long_text(terms, draws, true, colour).len(),
        drops_some(terms, draws) ==> long_text(terms, draws, false, colour).len() > long_text(
            terms,
            draws,
            true,
            colour,
        ).len(),
    decreases terms.len(),
{
    if terms.len() > 0 {
        let last = terms.len() - 1;
        let init = terms.drop_last();
        lemma_marked_long_text_longer(init, draws, colour);
        lemma_marked_term_longer(last, terms.last(), draws[last], colour);
        if drops_some(terms, draws) {
            let i = choose|i: int|
                0 <= i < terms.len() && (#[trigger] terms[i]).count > 0 && dropped_count(
                    draws[i],
                    terms[i].drop,
                ) >= 1;
            if i < last {
                assert(init[i] == terms[i]);
                assert(drops_some(init, draws));
            }
        }
    }
}

/// With the same draws, when the roll succeeds and some term drops at least
/// one die, skip-dropped and mark-dropped output differ.
pub proof fn lemma_skip_and_mark_differ(terms: Seq<Term>, draws: Seq<Seq<u32>>, colour: bool)
    requires
        run_total(terms, draws) is Ok,
        drops_some(terms, draws),
    ensures
        outcome_text(terms, draws, true, false, colour) != outcome_text(
            terms,
            draws,
            false,
            false,
            colour,
        ),
{
    lemma_marked_long_text_longer(terms, draws, colour);
    let t = run_total(terms, draws)->Ok_0;
    let a = long_text(terms, draws, true, colour) + arrow_text() + signed_decimal(t);
    let b = long_text(terms, draws, false, colour) + arrow_text() + signed_decimal(t);
    assert(a.len() != b.len());
}

} // verus!
