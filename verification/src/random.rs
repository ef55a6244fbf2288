//! Where the mines of a new game go: positions drawn from the thread's
//! random number generator.

use rand::rngs::ThreadRng;
use rand::Rng;
use vstd::prelude::*;
use crate::layout::spots_inside;

verus! {

/// The generator type of `rand`, carried through as an opaque value.
#[verifier::external_type_specification]
#[verifier::external_body]
pub struct ExThreadRng(rand::rngs::ThreadRng);

/// `rand::thread_rng` hands out the calling thread's generator, seeded by
/// the system. Nothing is claimed of the value. (It panics if the system
/// cannot supply a seed.)
pub assume_specification[ rand::thread_rng ]() -> (rng: ThreadRng)
;

/// `Rng::gen_range` on the half-open range `0..bound`: some index below
/// `bound`. The range must not be empty, or `gen_range` panics. Which index
/// comes back is not stated: two calls may differ.
#[verifier::external_body]
fn index_below(rng: &mut ThreadRng, bound: usize) -> (index: usize)
    requires
        bound > 0,
    ensures
        index < bound,
{
    rng.gen_range(0..bound)
}

/// Draws `count` positions on a board of `size` rows and columns, each one
/// independently of the others, so that a position may come up more than
/// once.
pub fn random_positions(size: usize, count: usize) -> (mines: Vec<(usize, usize)>)
    requires
        count > 0 ==> size > 0,
    ensures
        mines.len() == count,
        spots_inside(mines@, size as int),
{
    let mut rng = rand::thread_rng();
    let mut mines: Vec<(usize, usize)> = Vec::new();
    let mut drawn: usize = 0;
    while drawn < count
        invariant
            drawn <= count,
            size > 0 || count == 0,
            mines.len() == drawn,
            spots_inside(mines@, size as int),
        decreases count - drawn,
    {
        let row = index_below(&mut rng, size);
        let col = index_below(&mut rng, size);
        mines.push((row, col));
        drawn += 1;
    }
    mines
}

} // verus!
