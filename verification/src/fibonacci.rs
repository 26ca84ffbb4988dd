//! An endless Fibonacci generator, drawn one number at a time.

use vstd::prelude::*;

verus! {

/// Yields the Fibonacci numbers 1, 1, 2, 3, 5, ... and stops with `None`
/// once the next number no longer fits the word.
pub struct Fibonacci {
    pre_previous: u128,
    previous: u128,
}

impl Fibonacci {
    /// The two numbers the generator will add next, earlier one first.
    pub closed spec fn pair(self) -> (int, int) {
        (self.pre_previous as int, self.previous as int)
    }

    /// Creates a generator positioned before the first number.
    pub fn new() -> (f: Fibonacci)
        ensures
            f.pair() == (0int, 0int),
    {
        Fibonacci { pre_previous: 0, previous: 0 }
    }

    /// Draws the next number.  The two starting states yield the two
    /// leading ones; after that each draw yields the sum of the pair and
    /// shifts it, or yields nothing once the sum would overflow, leaving
    /// the generator exhausted.
    pub fn next(&mut self) -> (r: Option<u128>)
        ensures
            old(self).pair() == (0int, 0int) ==> r == Some(1u128) && final(self).pair() == (
                0int,
                1int,
            ),
            old(self).pair() == (0int, 1int) ==> r == Some(1u128) && final(self).pair() == (
                1int,
                1int,
            ),
            old(self).pair() != (0int, 0int) && old(self).pair() != (0int, 1int) ==> {
                let sum = old(self).pair().0 + old(self).pair().1;
                &&& sum <= u128::MAX ==> r == Some(sum as u128) && final(self).pair() == (
                    old(self).pair().1,
                    sum,
                )
                &&& sum > u128::MAX ==> r == None::<u128> && final(self).pair() == (
                    old(self).pair().1,
                    old(self).pair().1,
                )
            },
    {
        if self.pre_previous == 0 && self.previous == 0 {
            self.previous = 1;
            Some(1)
        } else if self.pre_previous == 0 && self.previous == 1 {
            self.pre_previous = 1;
            Some(1)
        } else if self.pre_previous <= u128::MAX - self.previous {
            let f = self.pre_previous + self.previous;
            self.pre_previous = self.previous;
            self.previous = f;
            Some(f)
        } else {
            self.pre_previous = self.previous;
            None
        }
    }
}

} // verus!
