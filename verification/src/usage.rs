//! Usage tiers and per-entry usage counters.
//!
//! Each cache entry carries three independent non-negative counts, one per
//! tier.  Counters are reset at the start of every tick and raised by every
//! demand that touches the entry; an entry whose counter is empty at
//! generation time is evicted.

use vstd::prelude::*;

verus! {

/// Priority tier of a demand: `Fast` generates eagerly, `Slow` and
/// `KeepAlive` only reserve the entry.
#[derive(Debug, Copy, Clone, PartialEq, Eq, Structural)]
pub enum UsageStrategy {
    KeepAlive,
    Slow,
    Fast,
}

/// Three independent usage counts, one per tier.
#[derive(Debug, Clone, Copy, PartialEq, Eq, Structural)]
pub struct UsageCounter {
    pub keep_alive: u32,
    pub slow: u32,
    pub fast: u32,
}

impl UsageCounter {
    pub open spec fn spec_keep_alive(self) -> u32 {
        self.keep_alive
    }

    pub open spec fn spec_slow(self) -> u32 {
        self.slow
    }

    pub open spec fn spec_fast(self) -> u32 {
        self.fast
    }

    /// No demand of any tier touched the entry.
    pub open spec fn spec_is_empty(self) -> bool {
        self.keep_alive == 0 && self.slow == 0 && self.fast == 0
    }

    /// The counter with every count zero.
    pub open spec fn empty() -> UsageCounter {
        UsageCounter { keep_alive: 0, slow: 0, fast: 0 }
    }

    /// The count of one tier.
    pub open spec fn spec_count(self, usage: UsageStrategy) -> u32 {
        match usage {
            UsageStrategy::KeepAlive => self.keep_alive,
            UsageStrategy::Slow => self.slow,
            UsageStrategy::Fast => self.fast,
        }
    }

    /// This counter with one tier's count raised by one, saturating.
    pub open spec fn bumped(self, usage: UsageStrategy) -> UsageCounter {
        match usage {
            UsageStrategy::KeepAlive => UsageCounter {
                keep_alive: if self.keep_alive < u32::MAX {
                    (self.keep_alive + 1) as u32
                } else {
                    u32::MAX
                },
                ..self
            },
            UsageStrategy::Slow => UsageCounter {
                slow: if self.slow < u32::MAX {
                    (self.slow + 1) as u32
                } else {
                    u32::MAX
                },
                ..self
            },
            UsageStrategy::Fast => UsageCounter {
                fast: if self.fast < u32::MAX {
                    (self.fast + 1) as u32
                } else {
                    u32::MAX
                },
                ..self
            },
        }
    }

    /// The highest-priority tier with a non-zero count, or `None`.
    pub open spec fn spec_best_usage(self) -> Option<UsageStrategy> {
        if self.fast > 0 {
            Some(UsageStrategy::Fast)
        } else if self.slow > 0 {
            Some(UsageStrategy::Slow)
        } else if self.keep_alive > 0 {
            Some(UsageStrategy::KeepAlive)
        } else {
            None
        }
    }

    pub fn is_empty(&self) -> (r: bool)
        ensures
            r == self.spec_is_empty(),
    {
        self.keep_alive == 0 && self.slow == 0 && self.fast == 0
    }

    pub fn clear(&mut self)
        ensures
            *final(self) == UsageCounter::empty(),
    {
        self.keep_alive = 0;
        self.slow = 0;
        self.fast = 0;
    }

    pub fn should_keep_alive(&self) -> (r: bool)
        ensures
            r == (self.spec_keep_alive() > 0),
    {
        self.keep_alive > 0
    }

    pub fn should_generate_slow(&self) -> (r: bool)
        ensures
            r == (self.spec_slow() > 0),
    {
        self.slow > 0
    }

    pub fn should_generate_fast(&self) -> (r: bool)
        ensures
            r == (self.spec_fast() > 0),
    {
        self.fast > 0
    }

    pub fn new() -> (r: Self)
        ensures
            r == UsageCounter::empty(),
    {
        UsageCounter { keep_alive: 0, slow: 0, fast: 0 }
    }

    /// Raise one tier's count by exactly one.
    pub fn increment(&mut self, usage: UsageStrategy)
        requires
            old(self).spec_count(usage) < u32::MAX,
        ensures
            *final(self) == old(self).bumped(usage),
    {
        match usage {
            UsageStrategy::KeepAlive => self.keep_alive = self.keep_alive + 1,
            UsageStrategy::Slow => self.slow = self.slow + 1,
            UsageStrategy::Fast => self.fast = self.fast + 1,
        }
    }

    /// Lower one tier's count by exactly one.
    pub fn decrement(&mut self, usage: UsageStrategy)
        requires
            old(self).spec_count(usage) > 0,
        ensures
            final(self).spec_count(usage) == old(self).spec_count(usage) - 1,
            forall|u: UsageStrategy|
                u != usage ==> final(self).spec_count(u) == old(self).spec_count(u),
    {
        match usage {
            UsageStrategy::KeepAlive => self.keep_alive = self.keep_alive - 1,
            UsageStrategy::Slow => self.slow = self.slow - 1,
            UsageStrategy::Fast => self.fast = self.fast - 1,
        }
    }

    /// Raise one tier's count by one, saturating at the largest count.
    pub fn bump(&mut self, usage: UsageStrategy)
        ensures
            *final(self) == old(self).bumped(usage),
    {
        match usage {
            UsageStrategy::KeepAlive => {
                if self.keep_alive < u32::MAX {
                    self.keep_alive = self.keep_alive + 1;
                }
            },
            UsageStrategy::Slow => {
                if self.slow < u32::MAX {
                    self.slow = self.slow + 1;
                }
            },
            UsageStrategy::Fast => {
                if self.fast < u32::MAX {
                    self.fast = self.fast + 1;
                }
            },
        }
    }

    pub fn best_usage(&self) -> (r: Option<UsageStrategy>)
        ensures
            r == self.spec_best_usage(),
    {
        if self.fast > 0 {
            Some(UsageStrategy::Fast)
        } else if self.slow > 0 {
            Some(UsageStrategy::Slow)
        } else if self.keep_alive > 0 {
            Some(UsageStrategy::KeepAlive)
        } else {
            None
        }
    }
}

impl Default for UsageCounter {
    fn default() -> (r: Self)
        ensures
            r == UsageCounter::empty(),
    {
        Self::new()
    }
}

} // verus!
