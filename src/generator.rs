//! Monotonic identifier generators.
use vstd::prelude::*;

verus! {

/// The value that follows `x` on a 64-bit counter that wraps around.
pub open spec fn next_after(x: u64) -> u64 {
    if x == u64::MAX {
        0
    } else {
        (x + 1) as u64
    }
}

/// A source of fresh identifiers.
pub trait IdGenerator {
    /// The identifier the next call of `next` hands out.
    spec fn upcoming(&self) -> u64;

    /// Hands out the upcoming identifier and moves on to the one after it.
    fn next(&mut self) -> (r: u64)
        ensures
            r == old(self).upcoming(),
            final(self).upcoming() == next_after(old(self).upcoming()),
    ;
}

/// A counter that hands out consecutive integers from a start value.
#[derive(Debug)]
pub struct IntIdGenerator {
    next_id: u64,
}

impl View for IntIdGenerator {
    type V = u64;

    /// The identifier the generator hands out next.
    closed spec fn view(&self) -> u64 {
        self.next_id
    }
}

impl IntIdGenerator {
    pub fn new(start_id: u64) -> (r: Self)
        ensures
            r@ == start_id,
            r.upcoming() == start_id,
    {
        IntIdGenerator { next_id: start_id }
    }
}

impl IdGenerator for IntIdGenerator {
    closed spec fn upcoming(&self) -> u64 {
        self.next_id
    }

    fn next(&mut self) -> (r: u64)
        ensures
            r == old(self)@,
            final(self)@ == next_after(old(self)@),
    {
        let r = self.next_id;
        self.next_id = self.next_id.wrapping_add(1);
        r
    }
}

} // verus!
