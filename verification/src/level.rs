//! How tall a new node is: a geometric draw, cut off below `MAX_LEVEL`.

use vstd::prelude::*;

verus! {

/// No node spans more levels than this; the head spans exactly this many.
pub const MAX_LEVEL: usize = 32;

/// How many of the lowest bits of `bits` are set in a row, counting at most
/// `cap` of them. Each bit is one fair coin: the run goes on while it shows one.
pub open spec fn run_of_ones(bits: u64, cap: nat) -> nat
    decreases cap,
{
    if cap == 0 || bits % 2 == 0 {
        0
    } else {
        1 + run_of_ones(bits / 2, (cap - 1) as nat)
    }
}

/// The level that a word of random bits stands for.
pub open spec fn level_of(bits: u64) -> nat {
    run_of_ones(bits, (MAX_LEVEL - 1) as nat)
}

/// Sixty-four uniformly random bits from `rand::random::<u64>()`, which draws
/// them from the thread-local generator. Nothing is claimed of the value: any
/// `u64` may come back, and two calls may differ. The generator seeds itself
/// from the operating system when a thread first uses it, and panics if the
/// system hands out no seed.
#[verifier::external_body]
fn random_bits() -> (bits: u64) {
    rand::random::<u64>()
}

/// Reads a level off a word of random bits: starting from level 0, one more
/// level for each low bit that is set, until a bit is clear or the level is
/// `MAX_LEVEL - 1`.
pub fn level_from_bits(bits: u64) -> (level: usize)
    ensures
        level == level_of(bits),
        level < MAX_LEVEL,
{
    let mut level: usize = 0;
    let mut rest: u64 = bits;
    while level + 1 < MAX_LEVEL && rest % 2 == 1
        invariant
            level < MAX_LEVEL,
            level + run_of_ones(rest, (MAX_LEVEL - 1 - level) as nat) == level_of(bits),
        decreases MAX_LEVEL - level,
    {
        level += 1;
        rest = rest / 2;
    }
    level
}

/// Draws the level of a new node. Level `n` comes up with probability
/// `2^-(n+1)`, except that the last level takes all that is left.
pub fn random_level() -> (level: usize)
    ensures
        level < MAX_LEVEL,
{
    level_from_bits(random_bits())
}

} // verus!
