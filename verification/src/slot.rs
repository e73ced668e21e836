//! The rules at one terminal of a route table.

use vstd::prelude::*;

use crate::cover;
use crate::cover::{Cover, RuleId};
use crate::diagnostics::RawMatch;
use crate::pattern::Pattern;
use crate::routing;
use crate::routing::{MethodGap, Slot};

verus! {

/// Which HTTP method(s) a registration applies to. `Any` (the default) matches every
/// method; `OneOf` matches the listed methods, all under the registration's **single
/// rule id**. An empty `OneOf` matches nothing and is rejected at build time.
///
/// The router selects a path terminal before consulting this value.
#[derive(Clone, Debug, PartialEq, Eq)]
pub enum MethodMatch {
    /// Matches any method (the wildcard default).
    Any,
    /// Matches any of these methods (must be non-empty).
    OneOf(Vec<http::Method>),
}

impl Default for MethodMatch {
    fn default() -> (methods: Self)
        ensures
            methods == MethodMatch::Any,
    {
        MethodMatch::Any
    }
}

impl From<http::Method> for MethodMatch {
    fn from(m: http::Method) -> (methods: Self)
        ensures
            methods matches MethodMatch::OneOf(ms) && ms@ == seq![m],
    {
        let mut ms: Vec<http::Method> = Vec::new();
        ms.push(m);
        assert(ms@ =~= seq![m]);
        MethodMatch::OneOf(ms)
    }
}

impl vstd::std_specs::convert::FromSpecImpl<http::Method> for MethodMatch {
    open spec fn obeys_from_spec() -> bool {
        false
    }

    open spec fn from_spec(m: http::Method) -> Self {
        arbitrary()
    }
}

impl<const N: usize> From<[http::Method; N]> for MethodMatch {
    fn from(ms: [http::Method; N]) -> (methods: Self)
        ensures
            methods matches MethodMatch::OneOf(list) && list@ == ms@,
    {
        let mut list: Vec<http::Method> = Vec::new();
        let mut i: usize = 0;
        while i < N
            invariant
                i <= N,
                ms@.len() == N,
                list@ == ms@.take(i as int),
            decreases N - i,
        {
            list.push(ms[i].clone());
            assert(ms@.take(i + 1) =~= ms@.take(i as int).push(ms@[i as int]));
            i = i + 1;
        }
        assert(ms@.take(i as int) =~= ms@);
        MethodMatch::OneOf(list)
    }
}

impl<const N: usize> vstd::std_specs::convert::FromSpecImpl<[http::Method; N]> for MethodMatch {
    open spec fn obeys_from_spec() -> bool {
        false
    }

    open spec fn from_spec(ms: [http::Method; N]) -> Self {
        arbitrary()
    }
}

impl From<Vec<http::Method>> for MethodMatch {
    fn from(ms: Vec<http::Method>) -> (methods: Self) {
        MethodMatch::OneOf(ms)
    }
}

impl vstd::std_specs::convert::FromSpecImpl<Vec<http::Method>> for MethodMatch {
    open spec fn obeys_from_spec() -> bool {
        true
    }

    open spec fn from_spec(ms: Vec<http::Method>) -> Self {
        MethodMatch::OneOf(ms)
    }
}

/// Internal marker for a terminal-slot conflict during insertion.
#[derive(Debug, Clone, Copy)]
pub struct SlotConflict;

/// The rules terminating at one path position, keyed by method. A path can carry a
/// method-wildcard rule and any number of method-specific ones.
pub struct MethodSlot {
    /// The method-wildcard rule, if any.
    pub any: Option<RuleId>,
    /// Method-specific rules.
    pub exact: Vec<(http::Method, RuleId)>,
    /// What the position means for methods without a rule; `None` where it is unclaimed.
    pub claim: Option<MethodGap>,
}

impl View for MethodSlot {
    type V = Slot;

    open spec fn view(&self) -> Slot {
        Slot { any: self.any, exact: self.exact@, claim: self.claim }
    }
}

/// A slot with one method more.
pub open spec fn slot_with_method(slot: Slot, method: http::Method, id: RuleId) -> Option<Slot> {
    if exists|i: int| 0 <= i < slot.exact.len() && (#[trigger] slot.exact[i]).0 == method {
        None
    } else {
        Some(Slot { exact: slot.exact.push((method, id)), ..slot })
    }
}

/// A slot with the first `n` of the methods more.
pub open spec fn slot_with_methods(
    slot: Slot,
    methods: Seq<http::Method>,
    id: RuleId,
    n: nat,
) -> Option<Slot>
    decreases n,
{
    if n == 0 {
        Some(slot)
    } else {
        match slot_with_methods(slot, methods, id, (n - 1) as nat) {
            Some(before) => slot_with_method(before, methods[n - 1], id),
            None => None,
        }
    }
}

/// A slot with one rule more; `None` where a method already has one.
pub open spec fn slot_with_rule(slot: Slot, methods: MethodMatch, id: RuleId) -> Option<Slot> {
    match methods {
        MethodMatch::Any => if slot.any is Some {
            None
        } else {
            Some(Slot { any: Some(id), ..slot })
        },
        MethodMatch::OneOf(ms) => slot_with_methods(slot, ms@, id, ms@.len()),
    }
}

/// A slot with the first `n` of the rules more.
pub open spec fn slot_with_rules(
    slot: Slot,
    rules: Seq<(MethodMatch, RuleId)>,
    n: nat,
) -> Option<Slot>
    decreases n,
{
    if n == 0 {
        Some(slot)
    } else {
        match slot_with_rules(slot, rules, (n - 1) as nat) {
            Some(before) => slot_with_rule(before, rules[n - 1].0, rules[n - 1].1),
            None => None,
        }
    }
}

/// A slot with a claim more: two claims must agree.
pub open spec fn slot_with_claim(slot: Slot, claim: Option<MethodGap>) -> Option<Slot> {
    match (slot.claim, claim) {
        (_, None) => Some(slot),
        (None, Some(gap)) => Some(Slot { claim: Some(gap), ..slot }),
        (Some(before), Some(gap)) => if before == gap {
            Some(slot)
        } else {
            None
        },
    }
}

/// What one pattern puts at its terminal.
pub struct PathEntry {
    /// Where the rules stand.
    pub pattern: Pattern,
    /// Declares the pattern's catch-all tail exclusive.
    pub opaque: bool,
    /// What the terminal means for methods without a rule; `None` claims nothing.
    pub claim: Option<MethodGap>,
    /// The rules, each with its methods.
    pub rules: Vec<(MethodMatch, RuleId)>,
}

/// A slot with an entry more; `None` where the two conflict.
pub open spec fn slot_with_entry(slot: Slot, entry: PathEntry) -> Option<Slot> {
    match slot_with_claim(slot, entry.claim) {
        Some(claimed) => slot_with_rules(claimed, entry.rules@, entry.rules@.len()),
        None => None,
    }
}

impl MethodSlot {
    pub fn unclaimed() -> (slot: Self)
        ensures
            slot@ == routing::unclaimed(),
    {
        let slot = MethodSlot { any: None, exact: Vec::new(), claim: None };
        assert(slot@.exact =~= Seq::empty());
        slot
    }

    /// Resolve specific-method, then all-method rule.
    pub fn get(&self, method: &http::Method) -> (rule: Option<RuleId>)
        ensures
            rule == routing::slot_rule(self@, *method),
    {
        let mut i: usize = 0;
        assert(self.exact@.skip(0) =~= self.exact@);
        while i < self.exact.len()
            invariant
                i <= self.exact@.len(),
                routing::exact_rule(self.exact@, *method) == routing::exact_rule(
                    self.exact@.skip(i as int),
                    *method,
                ),
            decreases self.exact@.len() - i,
        {
            let ghost left = self.exact@.skip(i as int);
            assert(left.skip(1) =~= self.exact@.skip(i + 1));
            if self.exact[i].0 == *method {
                return Some(self.exact[i].1);
            }
            i = i + 1;
        }
        self.any
    }

    /// What the terminal decides for the method, or for all methods without a rule of
    /// their own (`None`).
    pub fn decide(&self, method: Option<&http::Method>) -> (decision: Option<RawMatch>)
        ensures
            decision == match method {
                Some(m) => routing::decide(self@, *m),
                None => routing::decide_rule(self.claim, self.any),
            },
    {
        let rule: Option<RuleId> = match method {
            Some(m) => self.get(m),
            None => self.any,
        };
        match self.claim {
            None => None,
            Some(gap) => match rule {
                Some(id) => Some(RawMatch::Matched { id }),
                None => match gap {
                    MethodGap::Default => Some(RawMatch::Default),
                    MethodGap::Deny => Some(RawMatch::MethodDenied),
                    MethodGap::Inherit => None,
                },
            },
        }
    }

    /// Coverage for one method, or for all unregistered methods (`None`).
    pub fn cover(&self, method: Option<&http::Method>) -> (cover: Cover)
        ensures
            cover::summarizes(
                cover,
                cover::decided(
                    match method {
                        Some(m) => routing::decide(self@, *m),
                        None => routing::decide_rule(self.claim, self.any),
                    },
                ),
            ),
    {
        let decision = self.decide(method);
        proof {
            if decision is Some {
                assert(cover::decided(decision).contains(decision->Some_0));
            }
        }
        match decision {
            None => Cover::Empty,
            Some(outcome) => Cover::of(outcome),
        }
    }

    pub(crate) fn claim_for(&mut self, claim: Option<MethodGap>) -> (done: Result<(), SlotConflict>)
        ensures
            match done {
                Ok(_) => slot_with_claim(old(self)@, claim) == Some(final(self)@),
                Err(_) => slot_with_claim(old(self)@, claim) is None,
            },
    {
        match claim {
            None => Ok(()),
            Some(gap) => match self.claim {
                None => {
                    self.claim = Some(gap);
                    Ok(())
                },
                Some(before) => if before == gap {
                    Ok(())
                } else {
                    Err(SlotConflict)
                },
            },
        }
    }

    /// Insert a rule; a duplicate method is a conflict, including one listed twice within
    /// one `OneOf`. An empty `OneOf` inserts nothing.
    pub fn insert(&mut self, methods: &MethodMatch, id: RuleId) -> (done: Result<(), SlotConflict>)
        ensures
            match done {
                Ok(_) => slot_with_rule(old(self)@, *methods, id) == Some(final(self)@),
                Err(_) => slot_with_rule(old(self)@, *methods, id) is None,
            },
    {
        match methods {
            MethodMatch::Any => {
                if self.any.is_some() {
                    return Err(SlotConflict);
                }
                self.any = Some(id);
                Ok(())
            },
            MethodMatch::OneOf(ms) => {
                let ghost before = self@;
                let mut i: usize = 0;
                while i < ms.len()
                    invariant
                        i <= ms@.len(),
                        before == old(self)@,
                        *methods == MethodMatch::OneOf(*ms),
                        slot_with_methods(before, ms@, id, i as nat) == Some(self@),
                    decreases ms@.len() - i,
                {
                    if self.has_method(&ms[i]) {
                        proof {
                            assert(slot_with_methods(before, ms@, id, (i + 1) as nat) is None);
                            lemma_conflict_stays(before, ms@, id, (i + 1) as nat, ms@.len());
                        }
                        return Err(SlotConflict);
                    }
                    self.exact.push((ms[i].clone(), id));
                    i = i + 1;
                }
                Ok(())
            },
        }
    }

    fn has_method(&self, method: &http::Method) -> (has: bool)
        ensures
            has <==> exists|i: int|
                0 <= i < self@.exact.len() && (#[trigger] self@.exact[i]).0 == *method,
    {
        let mut i: usize = 0;
        while i < self.exact.len()
            invariant
                i <= self.exact@.len(),
                forall|j: int| 0 <= j < i ==> (#[trigger] self.exact@[j]).0 != *method,
            decreases self.exact@.len() - i,
        {
            if self.exact[i].0 == *method {
                assert(self@.exact[i as int].0 == *method);
                return true;
            }
            i = i + 1;
        }
        false
    }

    /// Adds what an entry says of its terminal.
    pub(crate) fn add_entry(&mut self, entry: &PathEntry) -> (done: Result<(), SlotConflict>)
        ensures
            match done {
                Ok(_) => slot_with_entry(old(self)@, *entry) == Some(final(self)@),
                Err(_) => slot_with_entry(old(self)@, *entry) is None,
            },
    {
        match self.claim_for(entry.claim) {
            Err(e) => {
                return Err(e);
            },
            Ok(_) => {},
        }
        let ghost claimed = self@;
        let mut i: usize = 0;
        while i < entry.rules.len()
            invariant
                i <= entry.rules@.len(),
                slot_with_claim(old(self)@, entry.claim) == Some(claimed),
                slot_with_rules(claimed, entry.rules@, i as nat) == Some(self@),
            decreases entry.rules@.len() - i,
        {
            let rule = &entry.rules[i];
            match self.insert(&rule.0, rule.1) {
                Err(e) => {
                    proof {
                        assert(slot_with_rules(claimed, entry.rules@, (i + 1) as nat) is None);
                        lemma_rule_conflict_stays(
                            claimed,
                            entry.rules@,
                            (i + 1) as nat,
                            entry.rules@.len(),
                        );
                    }
                    return Err(e);
                },
                Ok(_) => {},
            }
            i = i + 1;
        }
        Ok(())
    }
}

proof fn lemma_conflict_stays(
    slot: Slot,
    methods: Seq<http::Method>,
    id: RuleId,
    n: nat,
    k: nat,
)
    requires
        n <= k,
        slot_with_methods(slot, methods, id, n) is None,
    ensures
        slot_with_methods(slot, methods, id, k) is None,
    decreases k - n,
{
    if n < k {
        lemma_conflict_stays(slot, methods, id, n, (k - 1) as nat);
    }
}

proof fn lemma_rule_conflict_stays(
    slot: Slot,
    rules: Seq<(MethodMatch, RuleId)>,
    n: nat,
    k: nat,
)
    requires
        n <= k,
        slot_with_rules(slot, rules, n) is None,
    ensures
        slot_with_rules(slot, rules, k) is None,
    decreases k - n,
{
    if n < k {
        lemma_rule_conflict_stays(slot, rules, n, (k - 1) as nat);
    }
}

} // verus!
