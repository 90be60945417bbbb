//! Sources of the draws that sampling consumes.

use rand::Rng;
use vstd::prelude::*;

verus! {

/// A supplier of integers below a bound, with a record of what it supplied.
pub trait RandomSource {
    /// The numbers drawn from this source so far, oldest first.
    spec fn drawn(&self) -> Seq<u64>;

    /// Draws an integer of `[0, bound)`.
    fn below(&mut self, bound: u64) -> (r: u64)
        requires
            bound > 0,
        ensures
            r < bound,
            final(self).drawn() == old(self).drawn().push(r),
    ;
}

/// `rand::thread_rng().gen_range(0..bound)`: a draw from the thread-local
/// generator of the `rand` crate.
///
/// Trusted: the draw lies in `[0, bound)`. `gen_range` panics on an empty
/// range, which `bound > 0` rules out; `thread_rng` panics where the system
/// cannot seed the generator, which no argument decides. Nothing is claimed
/// of which number of the range comes back.
#[verifier::external_body]
fn thread_rng_below(bound: u64) -> (r: u64)
    requires
        bound > 0,
    ensures
        r < bound,
{
    rand::thread_rng().gen_range(0..bound)
}

/// The thread-local generator of the `rand` crate, seeded by the system.
pub struct ThreadSource {
    log: Ghost<Seq<u64>>,
}

impl ThreadSource {
    /// A handle on the generator, with nothing drawn through it yet.
    pub fn new() -> (source: ThreadSource)
        ensures
            source.drawn() == Seq::<u64>::empty(),
    {
        ThreadSource { log: Ghost(Seq::empty()) }
    }
}

impl RandomSource for ThreadSource {
    closed spec fn drawn(&self) -> Seq<u64> {
        self.log@
    }

    fn below(&mut self, bound: u64) -> (r: u64) {
        let r = thread_rng_below(bound);
        self.log = Ghost(self.log@.push(r));
        r
    }
}

/// A source that replays a prepared list of numbers, round and round, each
/// reduced modulo the bound of the draw. With an empty list every draw is 0.
pub struct ReplaySource {
    numbers: Vec<u64>,
    next: usize,
    log: Ghost<Seq<u64>>,
}

impl ReplaySource {
    /// The prepared numbers.
    pub closed spec fn numbers(&self) -> Seq<u64> {
        self.numbers@
    }

    /// How far the source has gone through its list.
    pub closed spec fn position(&self) -> nat {
        self.next as nat
    }

    /// The place in the list that the next draw reads.
    pub open spec fn cursor(&self) -> int {
        if self.position() >= self.numbers().len() {
            0
        } else {
            self.position() as int
        }
    }

    /// A source that starts at the head of `numbers`.
    pub fn new(numbers: Vec<u64>) -> (source: ReplaySource)
        ensures
            source.numbers() == numbers@,
            source.position() == 0,
            source.drawn() == Seq::<u64>::empty(),
    {
        ReplaySource { numbers, next: 0, log: Ghost(Seq::empty()) }
    }
}

impl RandomSource for ReplaySource {
    closed spec fn drawn(&self) -> Seq<u64> {
        self.log@
    }

    fn below(&mut self, bound: u64) -> (r: u64)
        ensures
            final(self).numbers() == old(self).numbers(),
            old(self).numbers().len() == 0 ==> r == 0 && final(self).position() == old(
                self,
            ).position(),
            old(self).numbers().len() > 0 ==> r == old(self).numbers()[old(self).cursor()] % bound
                && final(self).position() == old(self).cursor() + 1,
    {
        let r = if self.numbers.len() == 0 {
            0
        } else {
            if self.next >= self.numbers.len() {
                self.next = 0;
            }
            let r = self.numbers[self.next] % bound;
            self.next = self.next + 1;
            r
        };
        self.log = Ghost(self.log@.push(r));
        r
    }
}

} // verus!
