//! Where the outcomes behind an anchor come from.

use vstd::prelude::*;

use crate::acceptance_laws;
use crate::coverage;
use crate::diagnostics::RawMatch;
use crate::routing;
use crate::routing::{Key, Slots, Step, Tail};

verus! {

/// What a terminal covers behind the first segment.
proof fn lemma_reaches_under(seg: Seq<u8>, step: Step, key: Key, body: Seq<u8>)
    requires
        coverage::plain_segment(seg),
        routing::step_matches(step, seg),
        acceptance_laws::reaches(key, body),
    ensures
        acceptance_laws::reaches(routing::behind(step, key), seg + seq![0x2Fu8] + body),
{
    let whole = routing::behind(step, key);
    let all = seg + seq![0x2Fu8] + body;
    acceptance_laws::lemma_head(seg, body, true);
    assert(routing::below(whole).steps =~= key.steps);
    assert(routing::below(whole) == key);
    assert(whole.steps[0] == step);
    if body.len() == 0 {
        assert(whole.steps.len() == 1);
    }
}

/// The terminals that decide have plain literals behind a step, too.
proof fn lemma_plain_under(slots: Slots, step: Step, method: http::Method)
    requires
        forall|key: Key|
            routing::decide(#[trigger] slots(key), method) is Some ==> acceptance_laws::plain_key(key),
    ensures
        forall|key: Key|
            routing::decide(#[trigger] routing::under(slots, step)(key), method) is Some
                ==> acceptance_laws::plain_key(key),
{
    let under = routing::under(slots, step);
    assert forall|key: Key| routing::decide(#[trigger] under(key), method) is Some implies acceptance_laws::plain_key(
        key,
    ) by {
        let whole = routing::behind(step, key);
        assert(routing::decide(slots(whole), method) is Some);
        assert forall|i: int| 0 <= i < key.steps.len() implies ((
        #[trigger] key.steps[i]) matches Step::Literal(text) ==> coverage::plain_segment(text)) by {
            assert(whole.steps[i + 1] == key.steps[i]);
        }
    }
}

/// Each outcome of the walk is a terminal's that covers a path along the segments.
proof fn lemma_walk_source(
    slots: Slots,
    segs: Seq<Seq<u8>>,
    method: http::Method,
    outcome: RawMatch,
) -> (source: (Key, Seq<u8>))
    requires
        coverage::plain(segs),
        routing::walk(slots, segs, method).0.contains(outcome),
        forall|key: Key|
            routing::decide(#[trigger] slots(key), method) is Some ==> acceptance_laws::plain_key(key),
    ensures
        routing::decide(slots(source.0), method) == Some(outcome),
        acceptance_laws::reaches(source.0, coverage::extend(segs, source.1)),
    decreases segs.len(),
{
    if segs.len() == 0 {
        let key = choose|key: Key|
            (false || key != routing::here(Tail::Leaf)) && routing::decide(
                #[trigger] slots(key),
                method,
            ) == Some(outcome);
        (key, acceptance_laws::lemma_sample(key))
    } else {
        let rest = segs.skip(1);
        assert(coverage::plain_segment(segs[0]));
        assert(coverage::plain(rest)) by {
            assert forall|i: int| 0 <= i < rest.len() implies coverage::plain_segment(
                #[trigger] rest[i],
            ) by {
                assert(rest[i] == segs[i + 1]);
            }
        }
        let literal = Step::Literal(segs[0]);
        let wildcard = Step::Wildcard;
        if routing::walk(routing::under(slots, literal), rest, method).0.contains(outcome) {
            lemma_plain_under(slots, literal, method);
            let (key, t) = lemma_walk_source(
                routing::under(slots, literal),
                rest,
                method,
                outcome,
            );
            lemma_reaches_under(segs[0], literal, key, coverage::extend(rest, t));
            (routing::behind(literal, key), t)
        } else if routing::walk(routing::under(slots, wildcard), rest, method).0.contains(outcome) {
            lemma_plain_under(slots, wildcard, method);
            let (key, t) = lemma_walk_source(
                routing::under(slots, wildcard),
                rest,
                method,
                outcome,
            );
            lemma_reaches_under(segs[0], wildcard, key, coverage::extend(rest, t));
            (routing::behind(wildcard, key), t)
        } else {
            let key = routing::here(Tail::CatchAll);
            assert(routing::decide(slots(key), method) == Some(outcome));
            assert(coverage::extend(segs, seq![]).len() > 0);
            (key, seq![])
        }
    }
}

/// Whether a terminal that covers everything behind some of the segments decides, and leaves at
/// least one of them to it.
pub open spec fn caught(slots: Slots, segs: Seq<Seq<u8>>, method: http::Method, key: Key) -> bool {
    &&& key.tail == Tail::CatchAll
    &&& key.steps.len() < segs.len()
    &&& forall|i: int|
        0 <= i < key.steps.len() ==> routing::step_matches(#[trigger] key.steps[i], segs[i])
    &&& routing::decide(slots(key), method) is Some
}

proof fn lemma_caught(slots: Slots, segs: Seq<Seq<u8>>, method: http::Method, key: Key)
    requires
        caught(slots, segs, method, key),
    ensures
        routing::walk(slots, segs, method).1,
    decreases segs.len(),
{
    if key.steps.len() == 0 {
        assert(key.steps =~= Seq::<Step>::empty());
        assert(key == routing::here(Tail::CatchAll));
    } else {
        let step = key.steps[0];
        let below = routing::below(key);
        let rest = segs.skip(1);
        assert(routing::behind(step, below).steps =~= key.steps);
        assert(routing::behind(step, below) == key);
        assert forall|i: int| 0 <= i < below.steps.len() implies routing::step_matches(
            #[trigger] below.steps[i],
            rest[i],
        ) by {
            assert(key.steps[i + 1] == below.steps[i]);
            assert(segs[i + 1] == rest[i]);
        }
        assert(routing::step_matches(key.steps[0], segs[0]));
        lemma_caught(routing::under(slots, step), rest, method, below);
    }
}

/// The outcomes that the analysis ascribes to the paths behind an anchor are not made up: each
/// but the default is what a terminal says that covers such a path, and where a catch-all
/// stands above the anchor's end the default is no exception. Nothing is to stand behind a
/// second slash at the root.
pub proof fn anchored_outcomes_stem_from_terminals(
    slots: Slots,
    segs: Seq<Seq<u8>>,
    method: http::Method,
    outcome: RawMatch,
)
    requires
        coverage::plain(segs),
        routing::anchored(slots, segs, method).contains(outcome),
        forall|key: Key, i: int|
            routing::decide(slots(key), method) is Some && 0 <= i < key.steps.len() ==> ((
            #[trigger] key.steps[i]) matches Step::Literal(text) ==> coverage::plain_segment(text)),
        segs.len() == 0 ==> routing::decide(slots(routing::here(Tail::LeafSlash)), method) is None,
        outcome == RawMatch::Default ==> exists|key: Key| #[trigger]
            caught(slots, segs, method, key),
    ensures
        exists|key: Key, t: Seq<u8>|
            routing::decide(slots(key), method) == Some(outcome) && #[trigger] routing::covers(
                key,
                seq![0x2Fu8] + coverage::extend(segs, t),
            ),
{
    assert forall|key: Key| routing::decide(#[trigger] slots(key), method) is Some implies acceptance_laws::plain_key(
        key,
    ) by {}
    if outcome == RawMatch::Default {
        let key = choose|key: Key| #[trigger] caught(slots, segs, method, key);
        lemma_caught(slots, segs, method, key);
    }
    if segs.len() == 0 {
        let key = choose|key: Key|
            (true || key != routing::here(Tail::Leaf)) && routing::decide(
                #[trigger] slots(key),
                method,
            ) == Some(outcome);
        let t = if key == routing::here(Tail::Leaf) {
            Seq::<u8>::empty()
        } else {
            acceptance_laws::lemma_sample(key)
        };
        let path = seq![0x2Fu8] + coverage::extend(segs, t);
        assert(path.skip(1) =~= t);
        assert(routing::covers(key, path));
    } else {
        let (key, t) = lemma_walk_source(slots, segs, method, outcome);
        let path = seq![0x2Fu8] + coverage::extend(segs, t);
        assert(path.skip(1) =~= coverage::extend(segs, t));
        assert(coverage::extend(segs, t).len() > 0);
        assert(routing::covers(key, path));
    }
}

} // verus!
