use rand::rngs::ThreadRng;
use rand::Rng;
use vstd::prelude::*;

verus! {

#[verifier::external_type_specification]
#[verifier::external_body]
pub struct ExThreadRng(ThreadRng);

/// Relies on rand's `Rng::random_range`: on the non-empty range `1..=sides`
/// it returns a value inside that range (it panics only on an empty range).
#[verifier::external_body]
fn draw(rng: &mut ThreadRng, sides: u8) -> (r: u8)
    requires
        sides >= 1,
    ensures
        1 <= r <= sides,
{
    rng.random_range(1..=sides)
}

/// Relies on rand's `rand::rng`: a handle to the thread-local generator.
#[verifier::external_body]
pub(crate) fn thread_rng() -> ThreadRng {
    rand::rng()
}

/// Rolls `count` dice of `sides` faces, in draw order.
pub fn roll_dice(rng: &mut ThreadRng, count: usize, sides: u8) -> (r: Vec<u32>)
    requires
        sides >= 1,
    ensures
        r@.len() == count,
        forall|i: int| 0 <= i < r@.len() ==> 1 <= #[trigger] r@[i] <= sides,
{
    let mut r: Vec<u32> = Vec::new();
    let mut i: usize = 0;
    while i < count
        invariant
            sides >= 1,
            i <= count,
            r@.len() == i,
            forall|j: int| 0 <= j < r@.len() ==> 1 <= #[trigger] r@[j] <= sides,
        decreases count - i,
    {
        let v = draw(rng, sides);
        r.push(v as u32);
        i = i + 1;
    }
    r
}

} // verus!
