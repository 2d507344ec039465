use vstd::prelude::*;
use vstd::relations::{sorted_by, total_ordering};
use vstd::string::*;

use crate::term::{DropDie, Roll, RollError, Term};

verus! {

pub open spec fn ascending_order() -> spec_fn(u32, u32) -> bool {
    |a: u32, b: u32| a <= b
}

/// The values of `s` in ascending order.
pub open spec fn ascending(s: Seq<u32>) -> Seq<u32> {
    s.sort_by(ascending_order())
}

/// Whether a drop modifier takes effect on `count` dice: only a count of
/// dropped dice below the number rolled does.
pub open spec fn drop_applies(drop: Option<DropDie>, count: nat) -> bool {
    match drop {
        Some(d) => d.spec_amount() < count,
        None => false,
    }
}

/// The draws in the order in which the drop modifier inspects them: ascending
/// for drop-lowest, descending for drop-highest; draw order when no drop
/// takes effect.
pub open spec fn arranged(draws: Seq<u32>, drop: Option<DropDie>) -> Seq<u32> {
    if drop_applies(drop, draws.len()) {
        match drop {
            Some(DropDie::DropHighest(_)) => ascending(draws).reverse(),
            _ => ascending(draws),
        }
    } else {
        draws
    }
}

/// How many of the arranged draws are dropped.
pub open spec fn dropped_count(draws: Seq<u32>, drop: Option<DropDie>) -> nat {
    if drop_applies(drop, draws.len()) {
        drop->Some_0.spec_amount() as nat
    } else {
        0
    }
}

/// The draws that count towards the total.
pub open spec fn kept(draws: Seq<u32>, drop: Option<DropDie>) -> Seq<u32> {
    arranged(draws, drop).subrange(dropped_count(draws, drop) as int, draws.len() as int)
}

pub open spec fn sum(s: Seq<u32>) -> int
    decreases s.len(),
{
    if s.len() == 0 {
        0
    } else {
        sum(s.drop_last()) + s.last()
    }
}

pub open spec fn digit_char(d: int) -> char {
    if d == 0 {
        '0'
    } else if d == 1 {
        '1'
    } else if d == 2 {
        '2'
    } else if d == 3 {
        '3'
    } else if d == 4 {
        '4'
    } else if d == 5 {
        '5'
    } else if d == 6 {
        '6'
    } else if d == 7 {
        '7'
    } else if d == 8 {
        '8'
    } else {
        '9'
    }
}

/// The base-10 numeral of `n`.
pub open spec fn decimal(n: nat) -> Seq<char>
    decreases n,
{
    if n < 10 {
        seq![digit_char(n as int)]
    } else {
        decimal(n / 10).push(digit_char((n % 10) as int))
    }
}

/// The base-10 numeral of `i`, with a leading `-` when negative.
pub open spec fn signed_decimal(i: int) -> Seq<char> {
    if i < 0 {
        seq!['-'] + decimal((-i) as nat)
    } else {
        decimal(i as nat)
    }
}

/// Relies on std's `slice::sort`: it sorts in ascending order, keeping the
/// same elements.
#[verifier::external_body]
fn sort_ascending(v: &mut Vec<u32>)
    ensures
        final(v)@.to_multiset() == old(v)@.to_multiset(),
        sorted_by(final(v)@, ascending_order()),
{
    v.sort();
}

proof fn lemma_ascending_total()
    ensures
        total_ordering(ascending_order()),
{
}

fn sorted_copy(v: &Vec<u32>) -> (r: Vec<u32>)
    ensures
        r@ == ascending(v@),
{
    let mut r = v.clone();
    assert(r@ =~= v@);
    sort_ascending(&mut r);
    proof {
        lemma_ascending_total();
        v@.lemma_sort_by_ensures(ascending_order());
        vstd::seq_lib::lemma_sorted_unique(r@, ascending(v@), ascending_order());
    }
    r
}

fn reversed(v: &Vec<u32>) -> (r: Vec<u32>)
    ensures
        r@ == v@.reverse(),
{
    let mut r: Vec<u32> = Vec::new();
    let n = v.len();
    let mut i: usize = n;
    while i > 0
        invariant
            n == v@.len(),
            i <= n,
            r@ =~= v@.subrange(i as int, n as int).reverse(),
        decreases i,
    {
        i = i - 1;
        r.push(v[i]);
        assert(r@ =~= v@.subrange(i as int, n as int).reverse());
    }
    assert(v@.subrange(0, n as int) =~= v@);
    r
}

fn tail(v: &Vec<u32>, from: usize) -> (r: Vec<u32>)
    requires
        from <= v@.len(),
    ensures
        r@ == v@.subrange(from as int, v@.len() as int),
{
    let mut r: Vec<u32> = Vec::new();
    let mut i: usize = from;
    while i < v.len()
        invariant
            from <= i <= v@.len(),
            r@ =~= v@.subrange(from as int, i as int),
        decreases v@.len() - i,
    {
        r.push(v[i]);
        i = i + 1;
    }
    r
}

/// The draws arranged for the drop modifier (see `arranged`).
pub fn arrange(draws: &Vec<u32>, drop: Option<DropDie>) -> (r: Vec<u32>)
    ensures
        r@ == arranged(draws@, drop),
{
    let applies = match drop {
        Some(d) => d.amount() < draws.len(),
        None => false,
    };
    if !applies {
        let same = draws.clone();
        assert(same@ =~= draws@);
        return same;
    }
    let up = sorted_copy(draws);
    match drop {
        Some(DropDie::DropHighest(_)) => reversed(&up),
        _ => up,
    }
}

proof fn lemma_sum_bound(s: Seq<u32>)
    ensures
        0 <= sum(s) <= s.len() * 0xFFFF_FFFF,
    decreases s.len(),
{
    if s.len() > 0 {
        lemma_sum_bound(s.drop_last());
    }
}

/// The sum of `v`.
pub fn sum_of(v: &Vec<u32>) -> (r: u128)
    ensures
        r == sum(v@),
{
    let mut total: u128 = 0;
    let mut i: usize = 0;
    while i < v.len()
        invariant
            i <= v@.len(),
            total == sum(v@.subrange(0, i as int)),
            total <= i * 0xFFFF_FFFF,
        decreases v@.len() - i,
    {
        assert(v@.subrange(0, i + 1).drop_last() =~= v@.subrange(0, i as int));
        assert((i + 1) * 0xFFFF_FFFF == i * 0xFFFF_FFFF + 0xFFFF_FFFF) by (nonlinear_arith);
        total = total + v[i] as u128;
        i = i + 1;
    }
    assert(v@.subrange(0, i as int) =~= v@);
    total
}

fn digit_text(d: u64) -> (r: &'static str)
    requires
        d < 10,
    ensures
        r@ == seq![digit_char(d as int)],
{
    if d == 0 {
        proof { reveal_strlit("0"); }
        "0"
    } else if d == 1 {
        proof { reveal_strlit("1"); }
        "1"
    } else if d == 2 {
        proof { reveal_strlit("2"); }
        "2"
    } else if d == 3 {
        proof { reveal_strlit("3"); }
        "3"
    } else if d == 4 {
        proof { reveal_strlit("4"); }
        "4"
    } else if d == 5 {
        proof { reveal_strlit("5"); }
        "5"
    } else if d == 6 {
        proof { reveal_strlit("6"); }
        "6"
    } else if d == 7 {
        proof { reveal_strlit("7"); }
        "7"
    } else if d == 8 {
        proof { reveal_strlit("8"); }
        "8"
    } else {
        proof { reveal_strlit("9"); }
        "9"
    }
}

/// Appends the numeral of `n`.
pub fn push_decimal(out: &mut String, n: u64)
    ensures
        final(out)@ == old(out)@ + decimal(n as nat),
    decreases n,
{
    if n >= 10 {
        push_decimal(out, n / 10);
        out.append(digit_text(n % 10));
        assert(final(out)@ =~= old(out)@ + decimal(n as nat));
    } else {
        out.append(digit_text(n));
        assert(final(out)@ =~= old(out)@ + decimal(n as nat));
    }
}

/// Appends the numeral of `i`, signed.
pub fn push_signed(out: &mut String, i: i64)
    ensures
        final(out)@ == old(out)@ + signed_decimal(i as int),
{
    if i < 0 {
        proof { reveal_strlit("-"); }
        out.append("-");
        let m: u64 = (0 - (i as i128)) as u64;
        push_decimal(out, m);
        assert(final(out)@ =~= old(out)@ + signed_decimal(i as int));
    } else {
        push_decimal(out, i as u64);
    }
}

/// The glyph that marks a dropped die: a plain `X`, or a red one.
pub open spec fn marker(colour: bool) -> Seq<char> {
    if colour {
        seq!['\x1b', '[', '0', ';', '9', '1', 'm', 'X', '\x1b', '[', '0', 'm']
    } else {
        seq!['X']
    }
}

pub open spec fn plus_text() -> Seq<char> {
    seq![' ', '+', ' ']
}

pub open spec fn minus_text() -> Seq<char> {
    seq![' ', '-', ' ']
}

/// `vals` joined with ` + `, the first `marked` of them prefixed with `mark`.
pub open spec fn listing(vals: Seq<u32>, marked: int, mark: Seq<char>) -> Seq<char>
    decreases vals.len(),
{
    if vals.len() == 0 {
        Seq::empty()
    } else {
        let last = vals.len() - 1;
        let item = (if last < marked {
            mark
        } else {
            Seq::empty()
        }) + decimal(vals.last() as nat);
        if last == 0 {
            item
        } else {
            listing(vals.drop_last(), marked, mark) + plus_text() + item
        }
    }
}

/// A listing, in parentheses when it holds more than one value.
pub open spec fn bracketed(vals: Seq<u32>, marked: int, mark: Seq<char>) -> Seq<char> {
    if vals.len() > 1 {
        seq!['('] + listing(vals, marked, mark) + seq![')']
    } else {
        listing(vals, marked, mark)
    }
}

/// The values a term shows: the kept ones when dropped dice are skipped,
/// otherwise every draw in its arranged position.
pub open spec fn shown(draws: Seq<u32>, drop: Option<DropDie>, skip_dropped: bool) -> Seq<u32> {
    if skip_dropped {
        kept(draws, drop)
    } else {
        arranged(draws, drop)
    }
}

/// How many of the shown values carry the dropped marker.
pub open spec fn marked(draws: Seq<u32>, drop: Option<DropDie>, skip_dropped: bool) -> nat {
    if skip_dropped {
        0
    } else {
        dropped_count(draws, drop)
    }
}

/// The text before a term: nothing for the first, else its sign.
pub open spec fn separator(index: int, sign: i8) -> Seq<char> {
    if index == 0 {
        Seq::empty()
    } else if sign == 1 {
        plus_text()
    } else {
        minus_text()
    }
}

/// What the term at `index` adds to the long output.
pub open spec fn term_text(
    index: int,
    t: Term,
    draws: Seq<u32>,
    skip_dropped: bool,
    colour: bool,
) -> Seq<char> {
    if t.count == 0 {
        Seq::empty()
    } else {
        separator(index, t.sign) + bracketed(
            shown(draws, t.drop, skip_dropped),
            marked(draws, t.drop, skip_dropped) as int,
            marker(colour),
        )
    }
}

/// Whether `draws` can stand for the dice of `t`: one value per die, unless
/// nothing is rolled (no dice, or dice without sides).
pub open spec fn fits(t: Term, draws: Seq<u32>) -> bool {
    t.count == 0 || t.sides == 0 || draws.len() == t.count
}

/// Whether `draws` are values that the dice of `t` can show.
pub open spec fn fair_draws(t: Term, draws: Seq<u32>) -> bool {
    &&& fits(t, draws)
    &&& forall|i: int| 0 <= i < draws.len() ==> 1 <= #[trigger] draws[i] <= t.sides
}

/// Whether a tally of `t` with `draws` onto `total` ended as `r`, leaving
/// `after_total` and the term `after`.
pub open spec fn tallied(
    t: Term,
    draws: Seq<u32>,
    total: int,
    r: Result<(), RollError>,
    after_total: int,
    after: Term,
) -> bool {
    match tally(t, draws, total) {
        Ok(v) => r is Ok && after_total == v && after == settled(t, draws),
        Err(e) => r == Err::<(), RollError>(e) && after_total == total && after == t,
    }
}

pub open spec fn valid_sign(sign: i8) -> bool {
    sign == 1 || sign == -1
}

/// A term's signed contribution to the total: nothing for an empty term.
pub open spec fn contribution(t: Term, draws: Seq<u32>) -> int {
    if t.count == 0 {
        0
    } else {
        t.sign * sum(kept(draws, t.drop))
    }
}

pub open spec fn in_i64(v: int) -> bool {
    i64::MIN <= v <= i64::MAX
}

/// The running total after the term, or why the term cannot be tallied.
pub open spec fn tally(t: Term, draws: Seq<u32>, total: int) -> Result<int, RollError> {
    if t.count == 0 {
        Ok(total)
    } else if t.sides == 0 {
        Err(RollError::NoSides)
    } else if !valid_sign(t.sign) {
        Err(RollError::BadMultiplier)
    } else if in_i64(total + contribution(t, draws)) {
        Ok(total + contribution(t, draws))
    } else {
        Err(RollError::TotalOutOfRange)
    }
}

/// The term once tallied: its results are the kept draws.
pub open spec fn settled(t: Term, draws: Seq<u32>) -> Term {
    if t.count == 0 {
        t
    } else {
        Term {
            count: t.count,
            sides: t.sides,
            sign: t.sign,
            drop: t.drop,
            results: kept(draws, t.drop),
        }
    }
}

fn marker_text(colour: bool) -> (r: &'static str)
    ensures
        r@ == marker(colour),
{
    if colour {
        proof { reveal_strlit("\x1b[0;91mX\x1b[0m"); }
        "\x1b[0;91mX\x1b[0m"
    } else {
        proof { reveal_strlit("X"); }
        "X"
    }
}

fn push_listing(out: &mut String, vals: &Vec<u32>, marked: usize, colour: bool)
    ensures
        final(out)@ == old(out)@ + listing(vals@, marked as int, marker(colour)),
{
    let ghost start = out@;
    let mut i: usize = 0;
    while i < vals.len()
        invariant
            i <= vals@.len(),
            out@ == start + listing(vals@.subrange(0, i as int), marked as int, marker(colour)),
        decreases vals@.len() - i,
    {
        let ghost before = out@;
        let ghost sub = vals@.subrange(0, i + 1);
        assert(sub.drop_last() =~= vals@.subrange(0, i as int));
        if i > 0 {
            proof { reveal_strlit(" + "); }
            out.append(" + ");
        }
        if i < marked {
            out.append(marker_text(colour));
        }
        push_decimal(out, vals[i] as u64);
        assert(out@ =~= start + listing(sub, marked as int, marker(colour)));
        i = i + 1;
    }
    assert(vals@.subrange(0, i as int) =~= vals@);
}

fn push_bracketed(out: &mut String, vals: &Vec<u32>, marked: usize, colour: bool)
    ensures
        final(out)@ == old(out)@ + bracketed(vals@, marked as int, marker(colour)),
{
    if vals.len() > 1 {
        proof {
            reveal_strlit("(");
            reveal_strlit(")");
        }
        out.append("(");
        push_listing(out, vals, marked, colour);
        out.append(")");
        assert(final(out)@ =~= old(out)@ + bracketed(vals@, marked as int, marker(colour)));
    } else {
        push_listing(out, vals, marked, colour);
    }
}

/// The draws of a term arranged, and the number dropped from the front.
fn arrange_and_count(draws: &Vec<u32>, drop: Option<DropDie>) -> (r: (Vec<u32>, usize))
    ensures
        r.0@ == arranged(draws@, drop),
        r.1 == dropped_count(draws@, drop),
        r.1 <= draws@.len(),
{
    let up = arrange(draws, drop);
    let n = match drop {
        Some(d) => if d.amount() < draws.len() {
            d.amount()
        } else {
            0
        },
        None => 0,
    };
    (up, n)
}

proof fn lemma_arranged_len(draws: Seq<u32>, drop: Option<DropDie>)
    ensures
        arranged(draws, drop).len() == draws.len(),
{
    if drop_applies(drop, draws.len()) {
        lemma_ascending_total();
        draws.lemma_sort_by_ensures(ascending_order());
        let s = ascending(draws);
        vstd::seq_lib::to_multiset_len(draws);
        vstd::seq_lib::to_multiset_len(s);
    }
}

/// Applies a term's drop modifier to the given draws and adds its signed sum
/// to `total`: the evaluation of one term, for any values the dice showed.
/// The term keeps the surviving draws as its results.
pub fn add_rolled_to_total(roll: &mut Roll, draws: &Vec<u32>, total: &mut i64) -> (r: Result<
    (),
    RollError,
>)
    requires
        fits(old(roll)@, draws@),
    ensures
        tallied(old(roll)@, draws@, *old(total) as int, r, *final(total) as int, final(roll)@),
{
    match settle(roll, draws, total) {
        Ok(_) => Ok(()),
        Err(e) => Err(e),
    }
}

fn settle(roll: &mut Roll, draws: &Vec<u32>, total: &mut i64) -> (r: Result<Vec<u32>, RollError>)
    requires
        fits(old(roll)@, draws@),
    ensures
        match tally(old(roll)@, draws@, *old(total) as int) {
            Ok(v) => r is Ok && *final(total) == v && final(roll)@ == settled(old(roll)@, draws@)
                && (old(roll).num_rolls > 0 ==> r->Ok_0@ == arranged(draws@, old(roll).drop_die)),
            Err(e) => r == Err::<Vec<u32>, RollError>(e) && *final(total) == *old(total)
                && final(roll)@ == old(roll)@,
        },
{
    if roll.num_rolls == 0 {
        return Ok(Vec::new());
    }
    if roll.dice_sides == 0 {
        return Err(RollError::NoSides);
    }
    if roll.multiplier != 1 && roll.multiplier != -1 {
        return Err(RollError::BadMultiplier);
    }
    let (up, n) = arrange_and_count(draws, roll.drop_die);
    proof {
        lemma_arranged_len(draws@, roll.drop_die);
    }
    let kept_now = tail(&up, n);
    let s = sum_of(&kept_now);
    proof {
        lemma_sum_bound(kept_now@);
        assert(kept_now@.len() * 0xFFFF_FFFF <= 0xFFFF_FFFF_FFFF_FFFF * 0xFFFF_FFFF) by (
        nonlinear_arith)
            requires
                kept_now@.len() <= 0xFFFF_FFFF_FFFF_FFFF,
        ;
    }
    let next: i128 = if roll.multiplier == 1 {
        *total as i128 + s as i128
    } else {
        *total as i128 - s as i128
    };
    if next < i64::MIN as i128 || next > i64::MAX as i128 {
        return Err(RollError::TotalOutOfRange);
    }
    *total = next as i64;
    roll.results = kept_now;
    Ok(up)
}

/// As `add_rolled_to_total`, and appends the term's annotated rendering to
/// `output` (nothing for an empty term, nothing on an error).
pub fn add_rolled_to_total_and_output(
    index: usize,
    roll: &mut Roll,
    draws: &Vec<u32>,
    total: &mut i64,
    output: &mut String,
    skip_dropped: bool,
    colour: bool,
) -> (r: Result<(), RollError>)
    requires
        fits(old(roll)@, draws@),
    ensures
        tallied(old(roll)@, draws@, *old(total) as int, r, *final(total) as int, final(roll)@),
        final(output)@ == old(output)@ + (if r is Ok {
            term_text(index as int, old(roll)@, draws@, skip_dropped, colour)
        } else {
            Seq::empty()
        }),
{
    let ghost t = roll@;
    let up = match settle(roll, draws, total) {
        Ok(up) => up,
        Err(e) => {
            return Err(e);
        },
    };
    if roll.num_rolls == 0 {
        assert(final(output)@ =~= old(output)@ + term_text(
            index as int,
            t,
            draws@,
            skip_dropped,
            colour,
        ));
        return Ok(());
    }
    if index > 0 {
        if roll.multiplier == 1 {
            proof { reveal_strlit(" + "); }
            output.append(" + ");
        } else {
            proof { reveal_strlit(" - "); }
            output.append(" - ");
        }
    }
    if skip_dropped {
        push_bracketed(output, &roll.results, 0, colour);
    } else {
        let n = match roll.drop_die {
            Some(d) => if d.amount() < roll.num_rolls {
                d.amount()
            } else {
                0
            },
            None => 0,
        };
        push_bracketed(output, &up, n, colour);
    }
    assert(final(output)@ =~= old(output)@ + term_text(
        index as int,
        t,
        draws@,
        skip_dropped,
        colour,
    ));
    Ok(())
}

/// A term with no dice adds nothing to the total, cannot fail, and renders
/// as nothing.
pub proof fn lemma_empty_term(
    t: Term,
    draws: Seq<u32>,
    total: int,
    index: int,
    skip_dropped: bool,
    colour: bool,
)
    requires
        t.count == 0,
    ensures
        contribution(t, draws) == 0,
        tally(t, draws, total) == Ok::<int, RollError>(total),
        term_text(index, t, draws, skip_dropped, colour) == Seq::<char>::empty(),
        settled(t, draws) == t,
{
}

/// The total length of the numerals of `vals`.
pub open spec fn digits_len(vals: Seq<u32>) -> int
    decreases vals.len(),
{
    if vals.len() == 0 {
        0
    } else {
        digits_len(vals.drop_last()) + decimal(vals.last() as nat).len()
    }
}

proof fn lemma_decimal_nonempty(n: nat)
    ensures
        decimal(n).len() >= 1,
    decreases n,
{
    if n >= 10 {
        lemma_decimal_nonempty(n / 10);
    }
}

proof fn lemma_digits_len_concat(a: Seq<u32>, b: Seq<u32>)
    ensures
        digits_len(a + b) == digits_len(a) + digits_len(b),
        digits_len(a) >= a.len(),
    decreases a.len() + b.len(),
{
    if b.len() > 0 {
        assert((a + b).drop_last() =~= a + b.drop_last());
        lemma_digits_len_concat(a, b.drop_last());
    } else {
        assert(a + b =~= a);
        if a.len() > 0 {
            lemma_digits_len_concat(a.drop_last(), b);
            lemma_decimal_nonempty(a.last() as nat);
        }
    }
}

proof fn lemma_listing_len(vals: Seq<u32>, m: int, mark: Seq<char>)
    requires
        vals.len() >= 1,
        0 <= m,
    ensures
        listing(vals, m, mark).len() == digits_len(vals) + 3 * (vals.len() - 1) + (if m
            < vals.len() {
            m
        } else {
            vals.len() as int
        }) * mark.len(),
    decreases vals.len(),
{
    let k: int = if m < vals.len() {
        m
    } else {
        vals.len() as int
    };
    let last = vals.len() - 1;
    let mk: Seq<char> = if last < m {
        mark
    } else {
        Seq::empty()
    };
    let item = mk + decimal(vals.last() as nat);
    assert(digits_len(vals) == digits_len(vals.drop_last()) + decimal(vals.last() as nat).len());
    if vals.len() > 1 {
        assert(listing(vals, m, mark) == listing(vals.drop_last(), m, mark) + plus_text() + item);
        lemma_listing_len(vals.drop_last(), m, mark);
        let j: int = if m < vals.len() - 1 {
            m
        } else {
            vals.len() - 1
        };
        if last < m {
            assert(k == j + 1);
            assert(k * mark.len() == j * mark.len() + mark.len()) by (nonlinear_arith)
                requires
                    k == j + 1,
            ;
        } else {
            assert(k == j);
        }
    } else {
        assert(listing(vals, m, mark) == item);
        assert(digits_len(vals.drop_last()) == 0);
        if 0 < m {
            assert(k == 1);
        } else {
            assert(k == 0);
        }
        assert(k * mark.len() == (if 0 < m {
            mark.len() as int
        } else {
            0
        })) by (nonlinear_arith)
            requires
                k == (if 0 < m {
                    1int
                } else {
                    0
                }),
        ;
    }
}

/// A term's mark-dropped rendering is never shorter than its skip-dropped
/// one, and is longer when the term drops at least one die.
pub proof fn lemma_marked_term_longer(
    index: int,
    t: Term,
    draws: Seq<u32>,
    colour: bool,
)
    ensures
        term_text(index, t, draws, false, colour).len() >= term_text(
            index,
            t,
            draws,
            true,
            colour,
        ).len(),
        t.count > 0 && dropped_count(draws, t.drop) >= 1 ==> term_text(
            index,
            t,
            draws,
            false,
            colour,
        ).len() > term_text(index, t, draws, true, colour).len(),
{
    let mk = marker(colour);
    if t.count > 0 {
        lemma_arranged_len(draws, t.drop);
        let arr = arranged(draws, t.drop);
        let n = dropped_count(draws, t.drop);
        let sub = arr.subrange(n as int, arr.len() as int);
        if n == 0 {
            assert(sub =~= arr);
        } else {
            let c = arr.len();
            assert(c > n);
            lemma_listing_len(arr, n as int, mk);
            lemma_listing_len(sub, 0, mk);
            assert(arr =~= arr.subrange(0, n as int) + sub);
            lemma_digits_len_concat(arr.subrange(0, n as int), sub);
            assert((n as int) * mk.len() >= 0) by (nonlinear_arith)
                requires
                    n >= 1,
            ;
        }
    }
}

} // verus!
