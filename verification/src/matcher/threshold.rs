//! Counter for alert suppression.
use vstd::prelude::*;

verus! {

/// Basic threshold tracker for alert suppression.
#[derive(Debug)]
pub struct Threshold {
    pub limit: u32,
    pub current: u32,
}

impl Threshold {
    pub fn new(limit: u32) -> (t: Self)
        ensures
            t.limit == limit,
            t.current == 0,
    {
        Threshold { limit, current: 0 }
    }

    /// Increment and check if the threshold has been reached.
    pub fn bump(&mut self) -> (reached: bool)
        requires
            old(self).current < u32::MAX,
        ensures
            final(self).limit == old(self).limit,
            final(self).current == old(self).current + 1,
            reached == (final(self).current >= final(self).limit),
    {
        self.current += 1;
        self.current >= self.limit
    }

    pub fn reset(&mut self)
        ensures
            final(self).limit == old(self).limit,
            final(self).current == 0,
    {
        self.current = 0;
    }
}

} // verus!
