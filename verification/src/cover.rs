//! Summaries of sets of routing outcomes.

use vstd::prelude::*;

use crate::diagnostics::RawMatch;

verus! {

/// Identifier for a registered rule.
pub type RuleId = u32;

/// The id that stands for the **default** rule (paths matching no registered route). No
/// registered rule has it.
pub const DEFAULT_RULE: RuleId = 0xFFFF_FFFF;

/// A summary of a set of outcomes. [`DEFAULT_RULE`] is a legal `Uniform` value: a wholly
/// unrouted region is *uniformly the default rule*.
#[derive(Clone, Copy, Debug, PartialEq, Eq, Structural)]
pub enum Cover {
    /// No terminals contribute.
    Empty,
    /// Every contributing terminal resolves to this one rule id.
    Uniform(RuleId),
    /// Every contributing terminal denies the method.
    Denied,
    /// At least two distinct outcomes contribute.
    Mixed,
}

/// The summary of one outcome.
pub open spec fn cover_of(outcome: RawMatch) -> Cover {
    match outcome {
        RawMatch::Matched { id } => Cover::Uniform(id),
        RawMatch::Default => Cover::Uniform(DEFAULT_RULE),
        RawMatch::MethodDenied => Cover::Denied,
    }
}

/// Outcomes that no registered rule takes from the default.
pub open spec fn genuine(outcomes: Set<RawMatch>) -> bool {
    forall|outcome: RawMatch| #[trigger]
        outcomes.contains(outcome) ==> outcome != (RawMatch::Matched { id: DEFAULT_RULE })
}

/// Whether `cover` is the summary of the outcomes.
pub open spec fn summarizes(cover: Cover, outcomes: Set<RawMatch>) -> bool {
    match cover {
        Cover::Empty => forall|outcome: RawMatch| !(#[trigger] outcomes.contains(outcome)),
        Cover::Mixed => exists|a: RawMatch, b: RawMatch| #[trigger]
            outcomes.contains(a) && #[trigger] outcomes.contains(b) && a != b,
        _ => {
            &&& exists|outcome: RawMatch| #[trigger] outcomes.contains(outcome)
            &&& forall|outcome: RawMatch| #[trigger]
                outcomes.contains(outcome) ==> cover_of(outcome) == cover
        },
    }
}

impl Cover {
    /// The summary of one outcome.
    pub fn of(outcome: RawMatch) -> (cover: Cover)
        ensures
            cover == cover_of(outcome),
    {
        match outcome {
            RawMatch::Matched { id } => Cover::Uniform(id),
            RawMatch::Default => Cover::Uniform(DEFAULT_RULE),
            RawMatch::MethodDenied => Cover::Denied,
        }
    }

    /// The semilattice join.
    pub open spec fn joined(self, other: Cover) -> Cover {
        if self == Cover::Empty {
            other
        } else if other == Cover::Empty || self == other {
            self
        } else {
            Cover::Mixed
        }
    }

    /// The semilattice join: the summary of both sets of outcomes together.
    pub fn join(self, other: Cover) -> (cover: Cover)
        ensures
            cover == self.joined(other),
    {
        if self == Cover::Empty {
            other
        } else if other == Cover::Empty || self == other {
            self
        } else {
            Cover::Mixed
        }
    }

    /// Join a single rule id into the summary.
    pub fn with(self, id: RuleId) -> (cover: Cover)
        ensures
            cover == self.joined(Cover::Uniform(id)),
    {
        self.join(Cover::Uniform(id))
    }
}

/// Joining summaries is joining sets.
pub proof fn lemma_join(a: Cover, b: Cover, s: Set<RawMatch>, t: Set<RawMatch>)
    requires
        summarizes(a, s),
        summarizes(b, t),
        genuine(s),
        genuine(t),
    ensures
        summarizes(a.joined(b), s.union(t)),
        genuine(s.union(t)),
{
    let u = s.union(t);
    if a != Cover::Empty && b != Cover::Empty {
        let x = choose|x: RawMatch| #[trigger] s.contains(x);
        let y = choose|y: RawMatch| #[trigger] t.contains(y);
        assert(s.contains(x) && t.contains(y)) by {
            if a == Cover::Mixed {
                let (p, q) = choose|p: RawMatch, q: RawMatch| #[trigger]
                    s.contains(p) && #[trigger] s.contains(q) && p != q;
                assert(s.contains(p));
            }
            if b == Cover::Mixed {
                let (p, q) = choose|p: RawMatch, q: RawMatch| #[trigger]
                    t.contains(p) && #[trigger] t.contains(q) && p != q;
                assert(t.contains(p));
            }
        }
        assert(u.contains(x) && u.contains(y));
        if a == Cover::Mixed {
            let (p, q) = choose|p: RawMatch, q: RawMatch| #[trigger]
                s.contains(p) && #[trigger] s.contains(q) && p != q;
            assert(u.contains(p) && u.contains(q));
        } else if b == Cover::Mixed {
            let (p, q) = choose|p: RawMatch, q: RawMatch| #[trigger]
                t.contains(p) && #[trigger] t.contains(q) && p != q;
            assert(u.contains(p) && u.contains(q));
        }
    } else if a == Cover::Empty {
        assert(u =~= t);
    } else {
        assert(u =~= s);
    }
}

/// The summary is unique.
pub proof fn lemma_one_summary(a: Cover, b: Cover, s: Set<RawMatch>)
    requires
        summarizes(a, s),
        summarizes(b, s),
        genuine(s),
    ensures
        a == b,
{
    if a == Cover::Mixed || b == Cover::Mixed {
        if a != b {
            let (p, q) = choose|p: RawMatch, q: RawMatch| #[trigger]
                s.contains(p) && #[trigger] s.contains(q) && p != q;
            assert(s.contains(p) && s.contains(q));
        }
    }
}

/// The set of what a terminal decides.
pub open spec fn decided(decision: Option<RawMatch>) -> Set<RawMatch> {
    match decision {
        Some(outcome) => Set::empty().insert(outcome),
        None => Set::empty(),
    }
}

} // verus!
