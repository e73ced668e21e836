//! What the anchored outcomes of a table say about the paths that extend the anchor.

use vstd::prelude::*;

use crate::diagnostics::RawMatch;
use crate::routing;
use crate::routing::{Key, Slots, Step, Tail};

verus! {

/// The body of a path that goes through the segments and then on with `t`.
pub open spec fn extend(segs: Seq<Seq<u8>>, t: Seq<u8>) -> Seq<u8>
    decreases segs.len(),
{
    if segs.len() == 0 {
        t
    } else {
        segs[0] + seq![0x2Fu8] + extend(segs.skip(1), t)
    }
}

/// Segments as they stand between slashes: not empty, without a slash.
pub open spec fn plain(segs: Seq<Seq<u8>>) -> bool {
    forall|i: int| 0 <= i < segs.len() ==> plain_segment(#[trigger] segs[i])
}

pub open spec fn plain_segment(seg: Seq<u8>) -> bool {
    seg.len() > 0 && !seg.contains(0x2F)
}

/// Splitting off a first segment.
pub proof fn lemma_split_head(seg: Seq<u8>, t: Seq<u8>)
    requires
        !seg.contains(0x2F),
    ensures
        routing::next_slash(seg + seq![0x2Fu8] + t, 0) == seg.len(),
        routing::head(seg + seq![0x2Fu8] + t) == seg,
        routing::goes_on(seg + seq![0x2Fu8] + t),
        routing::rest(seg + seq![0x2Fu8] + t) == t,
{
    let s = seg + seq![0x2Fu8] + t;
    routing::lemma_next_slash(s, 0);
    let k = routing::next_slash(s, 0);
    if k < seg.len() {
        assert(seg[k] == 0x2F);
    }
    assert(s[seg.len() as int] == 0x2F);
    assert(routing::head(s) =~= seg);
    assert(routing::rest(s) =~= t);
}

/// Whether the terminal covers what follows a slash: nothing, or a body.
spec fn reaches(key: Key, t: Seq<u8>) -> bool {
    if t.len() == 0 {
        key == routing::here(Tail::LeafSlash)
    } else {
        routing::key_matches(key, t)
    }
}

spec fn contends_at(slots: Slots, key: Key, t: Seq<u8>, method: http::Method) -> bool {
    reaches(key, t) && routing::decide(slots(key), method) is Some
}

spec fn selects_at(slots: Slots, key: Key, t: Seq<u8>, method: http::Method) -> bool {
    &&& contends_at(slots, key, t, method)
    &&& forall|other: Key| #[trigger]
        contends_at(slots, other, t, method) ==> other == key || routing::outranks(key, other)
}

proof fn lemma_reaches(seg: Seq<u8>, t: Seq<u8>, key: Key)
    requires
        plain_segment(seg),
    ensures
        ({
            let s = seg + seq![0x2Fu8] + t;
            routing::key_matches(key, s) <==> {
                ||| key == routing::here(Tail::CatchAll)
                ||| key.steps.len() > 0 && key.steps[0] == Step::Literal(seg) && reaches(
                    routing::below(key),
                    t,
                )
                ||| key.steps.len() > 0 && key.steps[0] == Step::Wildcard && reaches(
                    routing::below(key),
                    t,
                )
            }
        }),
{
    let s = seg + seq![0x2Fu8] + t;
    lemma_split_head(seg, t);
    if key.steps.len() == 0 {
        assert(key.steps =~= Seq::empty());
    } else if key.steps.len() == 1 {
        assert(routing::below(key).steps =~= Seq::empty());
    } else {
        assert(routing::below(key).steps.len() > 0);
    }
}

proof fn lemma_behind_below(step: Step, key: Key)
    ensures
        routing::below(routing::behind(step, key)) == key,
        routing::behind(step, key).steps[0] == step,
        routing::behind(step, key).steps.len() > 0,
{
    assert(routing::below(routing::behind(step, key)).steps =~= key.steps);
}

proof fn lemma_below_behind(key: Key)
    requires
        key.steps.len() > 0,
    ensures
        routing::behind(key.steps[0], routing::below(key)) == key,
{
    assert(routing::behind(key.steps[0], routing::below(key)).steps =~= key.steps);
}

/// If the selected terminal lies behind a step, it is selected behind the step.
proof fn lemma_selected_below(slots: Slots, key: Key, seg: Seq<u8>, t: Seq<u8>, method: http::Method)
    requires
        plain_segment(seg),
        selects_at(slots, key, seg + seq![0x2Fu8] + t, method),
        key.steps.len() > 0,
    ensures
        selects_at(routing::under(slots, key.steps[0]), routing::below(key), t, method),
        key.steps[0] == Step::Literal(seg) || key.steps[0] == Step::Wildcard,
        routing::under(slots, key.steps[0])(routing::below(key)) == slots(key),
{
    let s = seg + seq![0x2Fu8] + t;
    let step = key.steps[0];
    let inner = routing::under(slots, step);
    lemma_reaches(seg, t, key);
    lemma_below_behind(key);
    assert(contends_at(slots, key, s, method));
    assert forall|other: Key| #[trigger] contends_at(inner, other, t, method) implies other
        == routing::below(key) || routing::outranks(routing::below(key), other) by {
        let outer = routing::behind(step, other);
        lemma_behind_below(step, other);
        lemma_reaches(seg, t, outer);
        assert(contends_at(slots, outer, s, method));
    }
}

/// The walk over the segments accounts for every path through them.
proof fn lemma_walk(slots: Slots, segs: Seq<Seq<u8>>, t: Seq<u8>, method: http::Method)
    requires
        plain(segs),
    ensures
        forall|key: Key| #[trigger]
            selects_at(slots, key, extend(segs, t), method) ==> routing::walk(
                slots,
                segs,
                method,
            ).0.contains(routing::decide(slots(key), method)->Some_0),
        routing::walk(slots, segs, method).1 ==> exists|key: Key| #[trigger]
            contends_at(slots, key, extend(segs, t), method),
    decreases segs.len(),
{
    let s = extend(segs, t);
    if segs.len() == 0 {
        assert forall|key: Key| #[trigger] selects_at(slots, key, t, method) implies routing::walk(
            slots,
            segs,
            method,
        ).0.contains(routing::decide(slots(key), method)->Some_0) by {
            assert(contends_at(slots, key, t, method));
            assert(key != routing::here(Tail::Leaf));
            assert(routing::decide(slots(key), method) is Some);
        }
        if routing::walk(slots, segs, method).1 {
            if t.len() == 0 {
                assert(contends_at(slots, routing::here(Tail::LeafSlash), t, method));
            } else {
                assert(contends_at(slots, routing::here(Tail::CatchAll), t, method));
            }
        }
    } else {
        let seg = segs[0];
        let tail = segs.skip(1);
        let t1 = extend(tail, t);
        let literal = routing::under(slots, Step::Literal(seg));
        let wildcard = routing::under(slots, Step::Wildcard);
        assert(plain_segment(seg));
        assert forall|i: int| 0 <= i < tail.len() implies plain_segment(#[trigger] tail[i]) by {
            assert(tail[i] == segs[i + 1]);
        }
        lemma_walk(literal, tail, t, method);
        lemma_walk(wildcard, tail, t, method);
        let lw = routing::walk(literal, tail, method);
        let ww = routing::walk(wildcard, tail, method);
        let here = routing::here(Tail::CatchAll);
        if lw.1 {
            let k = choose|k: Key| #[trigger] contends_at(literal, k, t1, method);
            lemma_branch(slots, Step::Literal(seg), k, seg, t1, method);
        } else if ww.1 {
            let k = choose|k: Key| #[trigger] contends_at(wildcard, k, t1, method);
            lemma_branch(slots, Step::Wildcard, k, seg, t1, method);
        } else if routing::decide(slots(here), method) is Some {
            lemma_reaches(seg, t1, here);
            assert(contends_at(slots, here, s, method));
        }
        assert forall|key: Key| #[trigger] selects_at(slots, key, s, method) implies routing::walk(
            slots,
            segs,
            method,
        ).0.contains(routing::decide(slots(key), method)->Some_0) by {
            assert(contends_at(slots, key, s, method));
            lemma_reaches(seg, t1, key);
            if key.steps.len() > 0 {
                lemma_selected_below(slots, key, seg, t1, method);
            }
            if lw.1 {
                let k = choose|k: Key| #[trigger] contends_at(literal, k, t1, method);
                let outer = routing::behind(Step::Literal(seg), k);
                lemma_branch(slots, Step::Literal(seg), k, seg, t1, method);
                assert(outer == key || routing::outranks(key, outer));
            } else if ww.1 {
                let k = choose|k: Key| #[trigger] contends_at(wildcard, k, t1, method);
                let outer = routing::behind(Step::Wildcard, k);
                lemma_branch(slots, Step::Wildcard, k, seg, t1, method);
                assert(outer == key || routing::outranks(key, outer));
            }
        }
    }
}

/// A contender behind a step contends in front of it.
proof fn lemma_branch(
    slots: Slots,
    step: Step,
    key: Key,
    seg: Seq<u8>,
    t: Seq<u8>,
    method: http::Method,
)
    requires
        plain_segment(seg),
        step == Step::Literal(seg) || step == Step::Wildcard,
        contends_at(routing::under(slots, step), key, t, method),
    ensures
        contends_at(slots, routing::behind(step, key), seg + seq![0x2Fu8] + t, method),
        routing::behind(step, key).steps.len() > 0,
        routing::behind(step, key).steps[0] == step,
{
    lemma_behind_below(step, key);
    lemma_reaches(seg, t, routing::behind(step, key));
}

/// Whatever follows an anchor, the path that results selects one of the anchored
/// outcomes.
pub proof fn anchored_outcomes_are_sound(
    slots: Slots,
    segs: Seq<Seq<u8>>,
    t: Seq<u8>,
    method: http::Method,
)
    requires
        plain(segs),
    ensures
        routing::anchored(slots, segs, method).contains(
            routing::identity(slots, seq![0x2Fu8] + extend(segs, t), method),
        ),
{
    let s = extend(segs, t);
    let path = seq![0x2Fu8] + s;
    assert(path.skip(1) =~= s);
    let outcome = routing::identity(slots, path, method);
    if s.len() == 0 {
        assert(segs.len() == 0);
        let leaf = routing::here(Tail::Leaf);
        if routing::decide(slots(leaf), method) is Some {
            assert(routing::contends(slots, leaf, path, method));
            assert(routing::selects(slots, leaf, path, method));
            routing::lemma_identity(slots, leaf, path, method);
        } else {
            assert forall|key: Key| !routing::selects(slots, key, path, method) by {
                if routing::selects(slots, key, path, method) {
                    assert(routing::contends(slots, key, path, method));
                }
            }
        }
    } else {
        routing::lemma_find_identity(slots, path, method);
        lemma_walk(slots, segs, t, method);
        match routing::find(slots, s, method) {
            Some(key) => {
                assert(selects_at(slots, key, s, method)) by {
                    assert(routing::contends(slots, key, path, method));
                    assert forall|other: Key| #[trigger]
                        contends_at(slots, other, s, method) implies other == key
                        || routing::outranks(key, other) by {
                        assert(routing::contends(slots, other, path, method));
                    }
                }
                if segs.len() == 0 {
                    assert(routing::decide(slots(key), method) == Some(outcome));
                    assert(routing::region(slots, method, true).contains(outcome));
                }
            },
            None => {
                assert forall|key: Key| !(#[trigger] contends_at(slots, key, s, method)) by {
                    assert(!routing::contends(slots, key, path, method));
                }
                if segs.len() == 0 {
                    assert(!contends_at(slots, routing::here(Tail::CatchAll), s, method));
                }
            },
        }
    }
}

/// One segment more.
proof fn lemma_walk_longer(slots: Slots, segs: Seq<Seq<u8>>, seg: Seq<u8>, method: http::Method)
    ensures
        routing::walk(slots, segs.push(seg), method).0.subset_of(
            routing::walk(slots, segs, method).0,
        ),
        routing::walk(slots, segs, method).1 ==> routing::walk(slots, segs.push(seg), method).1,
    decreases segs.len(),
{
    let longer = segs.push(seg);
    if segs.len() == 0 {
        reveal_with_fuel(routing::walk, 2);
        assert(longer.skip(1) =~= Seq::empty());
        lemma_region_below(slots, Step::Literal(seg), method);
        lemma_region_below(slots, Step::Wildcard, method);
        assert(longer[0] == seg);
        assert forall|outcome: RawMatch| #[trigger]
            routing::walk(slots, longer, method).0.contains(outcome) implies routing::walk(
            slots,
            segs,
            method,
        ).0.contains(outcome) by {
            let key = routing::here(Tail::CatchAll);
            if routing::decide(slots(key), method) == Some(outcome) {
                assert(key != routing::here(Tail::Leaf));
            }
        }
    } else {
        assert(longer.skip(1) =~= segs.skip(1).push(seg));
        assert(longer[0] == segs[0]);
        lemma_walk_longer(
            routing::under(slots, Step::Literal(segs[0])),
            segs.skip(1),
            seg,
            method,
        );
        lemma_walk_longer(routing::under(slots, Step::Wildcard), segs.skip(1), seg, method);
    }
}

proof fn lemma_region_below(slots: Slots, step: Step, method: http::Method)
    ensures
        routing::region(routing::under(slots, step), method, false).subset_of(
            routing::region(slots, method, false),
        ),
{
    let inner = routing::under(slots, step);
    assert forall|outcome: RawMatch| #[trigger]
        routing::region(inner, method, false).contains(outcome) implies routing::region(
        slots,
        method,
        false,
    ).contains(outcome) by {
        let key = choose|key: Key|
            key != routing::here(Tail::Leaf) && routing::decide(#[trigger] inner(key), method)
                == Some(outcome);
        let outer = routing::behind(step, key);
        assert(outer.steps.len() > 0);
        assert(routing::decide(slots(outer), method) == Some(outcome));
    }
}

proof fn lemma_walk_nonempty(slots: Slots, segs: Seq<Seq<u8>>, method: http::Method)
    ensures
        routing::walk(slots, segs, method).1 ==> exists|outcome: RawMatch| #[trigger]
            routing::walk(slots, segs, method).0.contains(outcome),
    decreases segs.len(),
{
    if segs.len() == 0 {
        let key = routing::here(Tail::CatchAll);
        if routing::decide(slots(key), method) is Some {
            assert(key != routing::here(Tail::Leaf));
            let outcome = routing::decide(slots(key), method)->Some_0;
            assert(routing::decide(slots(key), method) == Some(outcome));
            assert(routing::walk(slots, segs, method).0.contains(outcome));
        }
    } else {
        let lit = routing::under(slots, Step::Literal(segs[0]));
        let wild = routing::under(slots, Step::Wildcard);
        lemma_walk_nonempty(lit, segs.skip(1), method);
        lemma_walk_nonempty(wild, segs.skip(1), method);
        let w = routing::walk(slots, segs, method);
        let lw = routing::walk(lit, segs.skip(1), method);
        let ww = routing::walk(wild, segs.skip(1), method);
        if w.1 {
            if lw.1 {
                let o = choose|o: RawMatch| #[trigger] lw.0.contains(o);
                assert(w.0.contains(o));
            } else if ww.1 {
                let o = choose|o: RawMatch| #[trigger] ww.0.contains(o);
                assert(w.0.contains(o));
            } else {
                assert(w.0.contains(
                    routing::decide(slots(routing::here(Tail::CatchAll)), method)->Some_0,
                ));
            }
        }
    }
}

/// Every region has an outcome.
pub proof fn lemma_some_outcome(slots: Slots, segs: Seq<Seq<u8>>, method: http::Method) -> (outcome:
    RawMatch)
    ensures
        routing::anchored(slots, segs, method).contains(outcome),
{
    if segs.len() == 0 {
        let leaf = routing::here(Tail::Leaf);
        if routing::decide(slots(leaf), method) is Some {
            let outcome = routing::decide(slots(leaf), method)->Some_0;
            assert(routing::region(slots, method, true).contains(outcome));
            outcome
        } else {
            RawMatch::Default
        }
    } else {
        lemma_walk_nonempty(slots, segs, method);
        let w = routing::walk(slots, segs, method);
        if w.1 {
            choose|o: RawMatch| #[trigger] w.0.contains(o)
        } else {
            RawMatch::Default
        }
    }
}

/// Lengthening an anchor only narrows its outcomes, and never to none.
pub proof fn longer_anchors_have_fewer_outcomes(
    slots: Slots,
    segs: Seq<Seq<u8>>,
    seg: Seq<u8>,
    method: http::Method,
)
    ensures
        routing::anchored(slots, segs.push(seg), method).subset_of(
            routing::anchored(slots, segs, method),
        ),
        exists|outcome: RawMatch| #[trigger]
            routing::anchored(slots, segs.push(seg), method).contains(outcome),
{
    let longer = segs.push(seg);
    lemma_walk_longer(slots, segs, seg, method);
    lemma_walk_nonempty(slots, longer, method);
    let w = routing::walk(slots, longer, method);
    if w.1 {
        let o = choose|o: RawMatch| #[trigger] w.0.contains(o);
        assert(routing::anchored(slots, longer, method).contains(o));
    } else {
        assert(routing::anchored(slots, longer, method).contains(RawMatch::Default));
    }
    if segs.len() == 0 {
        assert(routing::region(slots, method, false).subset_of(
            routing::region(slots, method, true),
        )) by {
            assert forall|outcome: RawMatch| #[trigger]
                routing::region(slots, method, false).contains(outcome) implies routing::region(
                slots,
                method,
                true,
            ).contains(outcome) by {
                let key = choose|key: Key|
                    key != routing::here(Tail::Leaf) && routing::decide(
                        #[trigger] slots(key),
                        method,
                    ) == Some(outcome);
                assert(routing::decide(slots(key), method) == Some(outcome));
            }
        }
        assert(longer.skip(1) =~= Seq::empty());
        if routing::decide(slots(routing::here(Tail::CatchAll)), method) is Some {
            assert(w.1);
        }
    }
}

} // verus!
