//! The model of routing: which terminal a path selects, and which outcomes a region of
//! paths can have.
//!
//! A **terminal** is a place in the table where rules stand: a sequence of literal and
//! wildcard steps with one of three endings. The table gives each terminal a **slot** of
//! rules. Everything here is a statement about slots; how a matcher stores them is its
//! own affair.

use vstd::prelude::*;

use crate::diagnostics::RawMatch;
use crate::pattern::{Seg, Shape};

verus! {

/// What a terminal without a rule for the request method means.
#[derive(Clone, Copy, Debug, PartialEq, Eq, Structural)]
pub enum MethodGap {
    /// The default rule applies.
    Default,
    /// The request is denied.
    Deny,
    /// Matching continues with the next terminal in order of precedence.
    Inherit,
}

/// One step of a terminal's path.
pub ghost enum Step {
    /// This segment, byte for byte.
    Literal(Seq<u8>),
    /// Any one non-empty segment.
    Wildcard,
}

/// How a terminal ends.
pub ghost enum Tail {
    /// With its last step.
    Leaf,
    /// With a slash after its last step.
    LeafSlash,
    /// With any non-empty remainder.
    CatchAll,
}

/// A terminal.
#[verifier::ext_equal]
pub ghost struct Key {
    pub steps: Seq<Step>,
    pub tail: Tail,
}

/// The rules at a terminal: one for all methods, any number for one method each, and
/// what the terminal means for the methods without a rule (`None`: the terminal is not
/// claimed at all).
#[verifier::ext_equal]
pub ghost struct Slot {
    pub any: Option<u32>,
    pub exact: Seq<(http::Method, u32)>,
    pub claim: Option<MethodGap>,
}

/// A terminal that is not claimed.
pub open spec fn unclaimed() -> Slot {
    Slot { any: None, exact: Seq::empty(), claim: None }
}

/// The rule that stands first for the method.
pub open spec fn exact_rule(exact: Seq<(http::Method, u32)>, method: http::Method) -> Option<u32>
    decreases exact.len(),
{
    if exact.len() == 0 {
        None
    } else if exact[0].0 == method {
        Some(exact[0].1)
    } else {
        exact_rule(exact.skip(1), method)
    }
}

/// The rule for the method: its own, else the one for all methods.
pub open spec fn slot_rule(slot: Slot, method: http::Method) -> Option<u32> {
    match exact_rule(slot.exact, method) {
        Some(id) => Some(id),
        None => slot.any,
    }
}

/// What the terminal decides for the method; `None` where matching goes on.
pub open spec fn decide(slot: Slot, method: http::Method) -> Option<RawMatch> {
    decide_rule(slot.claim, slot_rule(slot, method))
}

/// What a terminal decides, given its claim and the rule for the method.
pub open spec fn decide_rule(claim: Option<MethodGap>, rule: Option<u32>) -> Option<RawMatch> {
    match claim {
        None => None,
        Some(gap) => match (rule, gap) {
            (Some(id), _) => Some(RawMatch::Matched { id }),
            (None, MethodGap::Default) => Some(RawMatch::Default),
            (None, MethodGap::Deny) => Some(RawMatch::MethodDenied),
            (None, MethodGap::Inherit) => None,
        },
    }
}

/// The first slash at or after `i`, or the length.
pub open spec fn next_slash(s: Seq<u8>, i: int) -> int
    decreases s.len() - i,
{
    if i >= s.len() || s[i] == 0x2F {
        i
    } else {
        next_slash(s, i + 1)
    }
}

/// The first segment of a path body.
pub open spec fn head(s: Seq<u8>) -> Seq<u8> {
    s.take(next_slash(s, 0))
}

/// Whether a slash follows the first segment.
pub open spec fn goes_on(s: Seq<u8>) -> bool {
    next_slash(s, 0) < s.len()
}

/// What follows the slash after the first segment.
pub open spec fn rest(s: Seq<u8>) -> Seq<u8> {
    s.skip(next_slash(s, 0) + 1)
}

pub proof fn lemma_next_slash(s: Seq<u8>, i: int)
    requires
        0 <= i <= s.len(),
    ensures
        i <= next_slash(s, i) <= s.len(),
        next_slash(s, i) < s.len() ==> s[next_slash(s, i)] == 0x2F,
        forall|j: int| i <= j < next_slash(s, i) ==> #[trigger] s[j] != 0x2F,
    decreases s.len() - i,
{
    if i < s.len() && s[i] != 0x2F {
        lemma_next_slash(s, i + 1);
    }
}

/// Whether the step covers the segment.
pub open spec fn step_matches(step: Step, segment: Seq<u8>) -> bool {
    match step {
        Step::Literal(text) => text == segment,
        Step::Wildcard => segment.len() > 0,
    }
}

/// Whether the terminal covers a non-empty path body.
pub open spec fn key_matches(key: Key, s: Seq<u8>) -> bool
    decreases key.steps.len(),
{
    if key.steps.len() == 0 {
        key.tail == Tail::CatchAll
    } else {
        &&& step_matches(key.steps[0], head(s))
        &&& if !goes_on(s) {
            key.steps.len() == 1 && key.tail == Tail::Leaf
        } else if rest(s).len() == 0 {
            key.steps.len() == 1 && key.tail == Tail::LeafSlash
        } else {
            key_matches(below(key), rest(s))
        }
    }
}

/// The terminal as seen from behind its first step.
pub open spec fn below(key: Key) -> Key {
    Key { steps: key.steps.skip(1), tail: key.tail }
}

/// The terminal behind one more step.
pub open spec fn behind(step: Step, key: Key) -> Key {
    Key { steps: seq![step] + key.steps, tail: key.tail }
}

/// The terminal that ends at once.
pub open spec fn here(tail: Tail) -> Key {
    Key { steps: Seq::empty(), tail }
}

/// Whether the terminal covers the path: the root terminal covers exactly `/`.
pub open spec fn covers(key: Key, path: Seq<u8>) -> bool {
    &&& path.len() > 0 && path[0] == 0x2F
    &&& if path.len() == 1 {
        key == here(Tail::Leaf)
    } else {
        key_matches(key, path.skip(1))
    }
}

/// Precedence between terminals that cover one path: at the first difference a literal
/// comes before a wildcard, and both before a catch-all.
pub open spec fn outranks(a: Key, b: Key) -> bool
    decreases a.steps.len(),
{
    if a.steps.len() == 0 {
        false
    } else if b.steps.len() == 0 {
        true
    } else {
        match (a.steps[0], b.steps[0]) {
            (Step::Literal(_), Step::Wildcard) => true,
            (Step::Wildcard, Step::Literal(_)) => false,
            _ => outranks(below(a), below(b)),
        }
    }
}

/// A route table, as the slots of its terminals.
pub type Slots = spec_fn(Key) -> Slot;

/// Whether the terminal decides about the path.
pub open spec fn contends(slots: Slots, key: Key, path: Seq<u8>, method: http::Method) -> bool {
    covers(key, path) && decide(slots(key), method) is Some
}

/// Whether the terminal decides about the path and none that does outranks it.
pub open spec fn selects(slots: Slots, key: Key, path: Seq<u8>, method: http::Method) -> bool {
    &&& contends(slots, key, path, method)
    &&& forall|other: Key| #[trigger]
        contends(slots, other, path, method) ==> other == key || outranks(key, other)
}

/// What a path selects: the outcome of the foremost terminal that decides about it, else
/// the default.
pub open spec fn identity(slots: Slots, path: Seq<u8>, method: http::Method) -> RawMatch {
    if exists|key: Key| selects(slots, key, path, method) {
        let key = choose|key: Key| selects(slots, key, path, method);
        decide(slots(key), method)->Some_0
    } else {
        RawMatch::Default
    }
}

/// The table without one terminal.
pub open spec fn without(slots: Slots, key: Key) -> Slots {
    |k: Key|
        if k == key {
            unclaimed()
        } else {
            slots(k)
        }
}

/// The table as seen from behind one step.
pub open spec fn under(slots: Slots, step: Step) -> Slots {
    |k: Key| slots(behind(step, k))
}

/// Precedence cannot go both ways.
pub proof fn lemma_outranks_asymmetric(a: Key, b: Key)
    requires
        outranks(a, b),
    ensures
        !outranks(b, a),
    decreases a.steps.len(),
{
    if a.steps.len() > 0 && b.steps.len() > 0 {
        if outranks(below(a), below(b)) {
            lemma_outranks_asymmetric(below(a), below(b));
        }
    }
}

/// At most one terminal is selected.
pub proof fn lemma_one_selected(slots: Slots, a: Key, b: Key, path: Seq<u8>, method: http::Method)
    requires
        selects(slots, a, path, method),
        selects(slots, b, path, method),
    ensures
        a == b,
{
    assert(contends(slots, a, path, method));
    assert(contends(slots, b, path, method));
    if a != b {
        lemma_outranks_asymmetric(a, b);
    }
}

/// The selected terminal gives the identity.
pub proof fn lemma_identity(slots: Slots, key: Key, path: Seq<u8>, method: http::Method)
    requires
        selects(slots, key, path, method),
    ensures
        decide(slots(key), method) == Some(identity(slots, path, method)),
{
    let chosen = choose|k: Key| selects(slots, k, path, method);
    lemma_one_selected(slots, key, chosen, path, method);
}

/// The key of a pattern: everything up to a catch-all.
pub open spec fn key_of(shape: Shape) -> Key {
    key_from(shape.segments, shape.trailing_slash)
}

/// The key of a pattern's segments.
pub open spec fn key_from(segments: Seq<Seg>, trailing_slash: bool) -> Key
    decreases segments.len(),
{
    if segments.len() == 0 {
        here(
            if trailing_slash {
                Tail::LeafSlash
            } else {
                Tail::Leaf
            },
        )
    } else {
        match segments[0] {
            Seg::CatchAll => here(Tail::CatchAll),
            Seg::Wildcard => behind(Step::Wildcard, key_from(segments.skip(1), trailing_slash)),
            Seg::Literal(text) => behind(
                Step::Literal(vstd::utf8::encode_utf8(text)),
                key_from(segments.skip(1), trailing_slash),
            ),
        }
    }
}

/// The outcomes of all terminals of a table. A table seen from behind a step counts its
/// bare leaf only where the slash that follows the step may be missing.
pub open spec fn region(slots: Slots, method: http::Method, with_leaf: bool) -> Set<RawMatch> {
    Set::new(
        |outcome: RawMatch|
            exists|key: Key|
                (with_leaf || key != here(Tail::Leaf)) && decide(#[trigger] slots(key), method)
                    == Some(outcome),
    )
}

/// The outcomes of the paths that go on with the segments `segs`, and whether a terminal
/// decides about every one of them.
///
/// A suffix consults the literal branch first, falls to the wildcard branch only on a
/// dead end, and to the catch-all only when both dead-end. So once a branch leaves
/// nothing undecided, later ones are out of reach. Below the last segment, a catch-all and
/// a trailing-slash terminal together leave nothing undecided.
pub open spec fn walk(slots: Slots, segs: Seq<Seq<u8>>, method: http::Method) -> (
    Set<RawMatch>,
    bool,
)
    decreases segs.len(),
{
    if segs.len() == 0 {
        (
            region(slots, method, false),
            decide(slots(here(Tail::CatchAll)), method) is Some && decide(
                slots(here(Tail::LeafSlash)),
                method,
            ) is Some,
        )
    } else {
        let (literal, done) = walk(under(slots, Step::Literal(segs[0])), segs.skip(1), method);
        if done {
            (literal, true)
        } else {
            let (wildcard, done) = walk(under(slots, Step::Wildcard), segs.skip(1), method);
            if done {
                (literal.union(wildcard), true)
            } else {
                match decide(slots(here(Tail::CatchAll)), method) {
                    Some(outcome) => (literal.union(wildcard).insert(outcome), true),
                    None => (literal.union(wildcard), false),
                }
            }
        }
    }
}

/// The outcomes that the analysis ascribes to the paths that extend an anchor with these
/// segments. Where something is left undecided, the default is among them.
pub open spec fn anchored(slots: Slots, segs: Seq<Seq<u8>>, method: http::Method) -> Set<RawMatch> {
    if segs.len() == 0 {
        let all = region(slots, method, true);
        if decide(slots(here(Tail::Leaf)), method) is Some && decide(
            slots(here(Tail::CatchAll)),
            method,
        ) is Some {
            all
        } else {
            all.insert(RawMatch::Default)
        }
    } else {
        let (outcomes, complete) = walk(slots, segs, method);
        if complete {
            outcomes
        } else {
            outcomes.insert(RawMatch::Default)
        }
    }
}

/// The non-empty segments of an anchor.
pub open spec fn anchor_segments(anchor: Seq<u8>) -> Seq<Seq<u8>>
    decreases anchor.len(),
{
    proof {
        lemma_next_slash(anchor, 0);
    }
    if anchor.len() == 0 {
        Seq::empty()
    } else if head(anchor).len() == 0 {
        anchor_segments(rest(anchor))
    } else if !goes_on(anchor) {
        seq![head(anchor)]
    } else {
        seq![head(anchor)] + anchor_segments(rest(anchor))
    }
}

/// The foremost terminal that decides about a non-empty path body, found segment by
/// segment: literal before wildcard before catch-all, going back where a branch dead-ends.
pub open spec fn find(slots: Slots, s: Seq<u8>, method: http::Method) -> Option<Key>
    decreases s.len(), 1nat,
{
    match arrive(under(slots, Step::Literal(head(s))), s, method) {
        Some(key) => Some(behind(Step::Literal(head(s)), key)),
        None => match if head(s).len() > 0 {
            arrive(under(slots, Step::Wildcard), s, method)
        } else {
            None
        } {
            Some(key) => Some(behind(Step::Wildcard, key)),
            None => if decide(slots(here(Tail::CatchAll)), method) is Some {
                Some(here(Tail::CatchAll))
            } else {
                None
            },
        },
    }
}

/// The same behind the first segment of the body `s`.
pub open spec fn arrive(slots: Slots, s: Seq<u8>, method: http::Method) -> Option<Key>
    decreases s.len(), 0nat,
{
    proof {
        lemma_next_slash(s, 0);
    }
    if !goes_on(s) {
        if decide(slots(here(Tail::Leaf)), method) is Some {
            Some(here(Tail::Leaf))
        } else {
            None
        }
    } else if rest(s).len() == 0 {
        if decide(slots(here(Tail::LeafSlash)), method) is Some {
            Some(here(Tail::LeafSlash))
        } else {
            None
        }
    } else {
        find(slots, rest(s), method)
    }
}

/// Whether the terminal decides about a non-empty path body.
pub open spec fn contends_for(slots: Slots, key: Key, s: Seq<u8>, method: http::Method) -> bool {
    key_matches(key, s) && decide(slots(key), method) is Some
}

/// Whether the terminal is the foremost that decides about a non-empty path body.
pub open spec fn selects_for(slots: Slots, key: Key, s: Seq<u8>, method: http::Method) -> bool {
    &&& contends_for(slots, key, s, method)
    &&& forall|other: Key| #[trigger]
        contends_for(slots, other, s, method) ==> other == key || outranks(key, other)
}

/// Whether the terminal, seen from behind the first segment of `s`, covers what follows.
pub open spec fn arrives(key: Key, s: Seq<u8>) -> bool {
    if !goes_on(s) {
        key == here(Tail::Leaf)
    } else if rest(s).len() == 0 {
        key == here(Tail::LeafSlash)
    } else {
        key_matches(key, rest(s))
    }
}

proof fn lemma_behind_below(step: Step, key: Key)
    ensures
        below(behind(step, key)) == key,
        behind(step, key).steps[0] == step,
        behind(step, key).steps.len() == key.steps.len() + 1,
{
    assert(below(behind(step, key)).steps =~= key.steps);
}

proof fn lemma_below_behind(key: Key)
    requires
        key.steps.len() > 0,
    ensures
        behind(key.steps[0], below(key)) == key,
{
    assert(behind(key.steps[0], below(key)).steps =~= key.steps);
}

/// A terminal that covers a body is a catch-all, or lies behind a step that covers its
/// first segment.
proof fn lemma_key_matches(key: Key, s: Seq<u8>)
    ensures
        key_matches(key, s) <==> {
            ||| key == here(Tail::CatchAll)
            ||| key.steps.len() > 0 && step_matches(key.steps[0], head(s)) && arrives(below(key), s)
        },
{
    if key.steps.len() == 0 {
        assert(key.steps =~= Seq::empty());
    } else {
        if key.steps.len() == 1 {
            assert(below(key).steps =~= Seq::empty());
        }
        if below(key).steps == Seq::<Step>::empty() {
            assert(below(key).steps.len() == 0);
        }
    }
}

/// What `find` finds is what is selected; where it finds nothing, nothing decides.
pub proof fn lemma_find(slots: Slots, s: Seq<u8>, method: http::Method)
    ensures
        match find(slots, s, method) {
            Some(key) => selects_for(slots, key, s, method),
            None => forall|key: Key| !(#[trigger] contends_for(slots, key, s, method)),
        },
    decreases s.len(), 1nat,
{
    let literal = Step::Literal(head(s));
    lemma_arrive(under(slots, literal), s, method);
    lemma_arrive(under(slots, Step::Wildcard), s, method);
    let lit = arrive(under(slots, literal), s, method);
    let wild = if head(s).len() > 0 {
        arrive(under(slots, Step::Wildcard), s, method)
    } else {
        None
    };
    // Every contender lies in one of the three branches.
    assert forall|key: Key| #[trigger] contends_for(slots, key, s, method) implies {
        ||| key == here(Tail::CatchAll)
        ||| key.steps.len() > 0 && key.steps[0] == literal && arrives(below(key), s) && decide(
            under(slots, literal)(below(key)),
            method,
        ) is Some
        ||| key.steps.len() > 0 && key.steps[0] == Step::Wildcard && head(s).len() > 0 && arrives(
            below(key),
            s,
        ) && decide(under(slots, Step::Wildcard)(below(key)), method) is Some
    } by {
        lemma_key_matches(key, s);
        if key.steps.len() > 0 {
            lemma_below_behind(key);
        }
    }
    match find(slots, s, method) {
        Some(key) => {
            lemma_key_matches(key, s);
            if lit is Some {
                lemma_behind_below(literal, lit->Some_0);
            } else if wild is Some {
                lemma_behind_below(Step::Wildcard, wild->Some_0);
            }
            assert(contends_for(slots, key, s, method));
            assert forall|other: Key| #[trigger] contends_for(slots, other, s, method) implies other
                == key || outranks(key, other) by {
                if other.steps.len() > 0 {
                    lemma_below_behind(other);
                }
            }
        },
        None => {},
    }
}

proof fn lemma_arrive(slots: Slots, s: Seq<u8>, method: http::Method)
    ensures
        match arrive(slots, s, method) {
            Some(key) => {
                &&& arrives(key, s) && decide(slots(key), method) is Some
                &&& forall|other: Key| #[trigger]
                    arrives(other, s) && decide(slots(other), method) is Some ==> other == key
                        || outranks(key, other)
            },
            None => forall|key: Key| #[trigger]
                arrives(key, s) ==> decide(slots(key), method) is None,
        },
    decreases s.len(), 0nat,
{
    lemma_next_slash(s, 0);
    if goes_on(s) && rest(s).len() > 0 {
        lemma_find(slots, rest(s), method);
        match find(slots, rest(s), method) {
            Some(key) => {
                assert forall|other: Key| #[trigger]
                    arrives(other, s) && decide(slots(other), method) is Some implies other == key
                    || outranks(key, other) by {
                    assert(contends_for(slots, other, rest(s), method));
                }
            },
            None => {
                assert forall|key: Key| #[trigger] arrives(key, s) implies decide(
                    slots(key),
                    method,
                ) is None by {
                    assert(!contends_for(slots, key, rest(s), method));
                }
            },
        }
    }
}

/// What `find` finds decides the identity.
pub proof fn lemma_find_identity(slots: Slots, path: Seq<u8>, method: http::Method)
    requires
        path.len() > 1,
        path[0] == 0x2F,
    ensures
        match find(slots, path.skip(1), method) {
            Some(key) => selects(slots, key, path, method) && decide(slots(key), method) == Some(
                identity(slots, path, method),
            ),
            None => identity(slots, path, method) == RawMatch::Default && forall|key: Key|
                !(#[trigger] contends(slots, key, path, method)),
        },
{
    let s = path.skip(1);
    lemma_find(slots, s, method);
    assert forall|key: Key| #[trigger] contends(slots, key, path, method) == contends_for(
        slots,
        key,
        s,
        method,
    ) by {}
    match find(slots, s, method) {
        Some(key) => {
            assert(contends_for(slots, key, s, method));
            assert(contends(slots, key, path, method));
            assert(selects(slots, key, path, method));
            lemma_identity(slots, key, path, method);
        },
        None => {
            assert forall|key: Key| !(#[trigger] selects(slots, key, path, method)) by {
                assert(!contends_for(slots, key, s, method));
                assert(contends(slots, key, path, method) == contends_for(slots, key, s, method));
            }
        },
    }
}

} // verus!
