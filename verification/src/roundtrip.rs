//! What a run of the quantization round trip found.
//!
//! Quantizing a value and dequantizing the result must stay within half a quantization step of the
//! value. A value that would saturate is not judged: to count it as a pass would make a bound that
//! tells nothing apart look like one that everything satisfies.

use vstd::prelude::*;

verus! {

/// What a run of the relation found.
#[derive(Debug, Clone, Copy, PartialEq, Eq, Structural)]
pub struct Outcome {
    /// Values that the relation applied to and that satisfied it.
    pub held: usize,
    /// Values that the relation applied to and that violated it.
    pub violated: usize,
    /// Values that would saturate, so that the relation says nothing about them.
    pub not_representable: usize,
}

impl Default for Outcome {
    fn default() -> (r: Self)
        ensures
            r == (Outcome { held: 0, violated: 0, not_representable: 0 }),
    {
        Outcome { held: 0, violated: 0, not_representable: 0 }
    }
}

/// A run with one more value's verdict, where nothing means that the relation does not apply.
pub open spec fn recorded(o: Outcome, verdict: Option<bool>) -> Outcome {
    match verdict {
        Some(true) => Outcome { held: (o.held + 1) as usize, ..o },
        Some(false) => Outcome { violated: (o.violated + 1) as usize, ..o },
        None => Outcome { not_representable: (o.not_representable + 1) as usize, ..o },
    }
}

/// Whether one more verdict can be counted.
pub open spec fn has_room(o: Outcome, verdict: Option<bool>) -> bool {
    match verdict {
        Some(true) => o.held < usize::MAX,
        Some(false) => o.violated < usize::MAX,
        None => o.not_representable < usize::MAX,
    }
}

impl Outcome {
    /// How many values the relation could judge, which is what any rate is taken of.
    pub fn judged(&self) -> (r: usize)
        requires
            self.held + self.violated <= usize::MAX,
        ensures
            r == self.held + self.violated,
    {
        self.held + self.violated
    }

    /// Counts one value's verdict.
    pub fn record(&mut self, verdict: Option<bool>)
        requires
            has_room(*old(self), verdict),
        ensures
            *final(self) == recorded(*old(self), verdict),
    {
        match verdict {
            Some(true) => {
                self.held += 1;
            },
            Some(false) => {
                self.violated += 1;
            },
            None => {
                self.not_representable += 1;
            },
        }
    }
}

/// A value that the relation says nothing about is not counted as judged, and every other one is.
pub proof fn lemma_only_verdicts_are_judged(o: Outcome, verdict: Option<bool>)
    requires
        has_room(o, verdict),
    ensures
        recorded(o, verdict).held + recorded(o, verdict).violated == o.held + o.violated + if verdict
            is Some {
            1int
        } else {
            0int
        },
{
}

} // verus!
