//! The best value seen so far, with uniform random tie breaking.
use vstd::prelude::*;

verus! {

use crate::random::{Random, advance, draw};

/// The smallest value seen so far and how many times it was seen.
///
/// When a value equal to the best one comes in, it replaces the current
/// choice with probability one over the number of times the best value has
/// been seen, so that every tied candidate is equally likely to be kept.
pub struct Delta {
    pub value: i64,
    pub counter: i32,
}

impl Default for Delta {
    /// Zero, seen zero times.
    fn default() -> (d: Self)
        ensures
            d.value == 0,
            d.counter == 0,
    {
        Delta { value: 0, counter: 0 }
    }
}

/// `c + k`, held at `i32::MAX`.
pub open spec fn count_up(c: i32, k: i32) -> i32 {
    if c + k > i32::MAX {
        i32::MAX
    } else {
        (c + k) as i32
    }
}

impl Delta {
    /// `value`, seen `counter` times.
    pub fn new(value: i64, counter: i32) -> (d: Self)
        ensures
            d.value == value,
            d.counter == counter,
    {
        Delta { value, counter }
    }

    /// Offers `value`; returns whether the caller should now keep the
    /// candidate that produced it.
    ///
    /// A smaller value is always kept; an equal value is kept when a draw in
    /// `[1, counter]` (after counting it) gives 1; a larger one never.
    pub fn update(&mut self, value: i64, random: &mut Random) -> (kept: bool)
        requires
            old(self).counter >= 0,
        ensures
            final(self).counter >= 1 || (value > old(self).value && *final(self) == *old(self)),
            value < old(self).value ==> kept && final(self).value == value && final(self).counter == 1
                && final(random)@ == old(random)@,
            value > old(self).value ==> !kept && *final(self) == *old(self) && final(random)@ == old(random)@,
            value == old(self).value ==> final(self).value == old(self).value
                && final(self).counter == count_up(old(self).counter, 1)
                && final(random)@ == advance(old(random)@)
                && kept == (draw(old(random)@, 1, count_up(old(self).counter, 1)) == 1),
    {
        if value < self.value {
            self.value = value;
            self.counter = 1;
            true
        } else if value == self.value {
            self.counter = if self.counter == i32::MAX { i32::MAX } else { self.counter + 1 };
            random.next_int(1, self.counter) == 1
        } else {
            false
        }
    }

    /// Merges the best value of another search, counted `other.counter`
    /// times; returns whether the caller should now keep the other search's
    /// candidate.
    ///
    /// On a tie the other candidate is kept when a draw in `[1, counter]`
    /// (after adding the other count) is at most `other.counter`.
    pub fn update_from(&mut self, other: &Delta, random: &mut Random) -> (kept: bool)
        requires
            old(self).counter >= 0,
            other.counter >= 1,
        ensures
            final(self).counter >= 0,
            other.value < old(self).value ==> kept && *final(self) == *other && final(random)@ == old(random)@,
            other.value > old(self).value ==> !kept && *final(self) == *old(self) && final(random)@ == old(random)@,
            other.value == old(self).value ==> final(self).value == old(self).value
                && final(self).counter == count_up(old(self).counter, other.counter)
                && final(random)@ == advance(old(random)@)
                && kept == (draw(old(random)@, 1, count_up(old(self).counter, other.counter)) <= other.counter),
    {
        if other.value < self.value {
            self.value = other.value;
            self.counter = other.counter;
            true
        } else if other.value == self.value {
            self.counter = if self.counter > i32::MAX - other.counter { i32::MAX } else { self.counter + other.counter };
            random.next_int(1, self.counter) <= other.counter
        } else {
            false
        }
    }
}

} // verus!
