//! What is accepted: requests inside a subtree that belongs to one rule.

use vstd::prelude::*;

use crate::agreement;
use crate::agreement_laws;
use crate::anchor_laws;
use crate::canonical_laws;
use crate::config::{CaseSensitivity, GuardConfig, GuardMode, ResolveError};
use crate::cover::RuleId;
use crate::coverage;
use crate::diagnostics::RawMatch;
use crate::exclusive_laws;
use crate::guard_laws;
use crate::overlap_laws;
use crate::path_router;
use crate::path_router::{RuleMatch, RuleRouter};
use crate::pattern;
use crate::pattern_laws;
use crate::pattern_laws::Piece;
use crate::registration::{Methods, Plan};
use crate::rewriting;
use crate::route_laws;
use crate::router_laws;
use crate::routing;
use crate::routing::{Key, Slots, Step, Tail};
use crate::structural;
use crate::table_laws;
use crate::verdict_laws;

verus! {

/// Whether every literal of the terminal is a segment.
pub open spec fn plain_key(key: Key) -> bool {
    forall|i: int|
        0 <= i < key.steps.len() ==> ((#[trigger] key.steps[i]) matches Step::Literal(text)
            ==> coverage::plain_segment(text))
}

/// Whether the terminal covers what follows a slash.
pub open spec fn reaches(key: Key, t: Seq<u8>) -> bool {
    if t.len() == 0 {
        key == routing::here(Tail::LeafSlash)
    } else {
        routing::key_matches(key, t)
    }
}

/// Whether every terminal that decides about a path through the segments decides so.
spec fn settled(slots: Slots, segs: Seq<Seq<u8>>, method: http::Method, outcome: RawMatch) -> bool {
    forall|key: Key, t: Seq<u8>| #[trigger]
        reaches(key, coverage::extend(segs, t)) && routing::decide(slots(key), method) is Some
            ==> routing::decide(slots(key), method) == Some(outcome)
}

/// A terminal other than a bare leaf covers something behind a slash.
pub proof fn lemma_sample(key: Key) -> (t: Seq<u8>)
    requires
        plain_key(key),
        key != routing::here(Tail::Leaf),
    ensures
        reaches(key, t),
        key.steps.len() > 0 ==> t.len() > 0,
    decreases key.steps.len(),
{
    let x = seq![0x78u8];
    if key.steps.len() == 0 {
        assert(key.steps =~= Seq::<Step>::empty());
        if key.tail == Tail::LeafSlash {
            assert(key == routing::here(Tail::LeafSlash));
            Seq::empty()
        } else {
            if key.tail == Tail::Leaf {
                assert(key == routing::here(Tail::Leaf));
            }
            x
        }
    } else {
        let seg = match key.steps[0] {
            Step::Literal(text) => text,
            Step::Wildcard => x,
        };
        assert(coverage::plain_segment(seg)) by {
            if key.steps[0] is Wildcard {
                assert(x[0] == 0x78);
            }
        }
        let below = routing::below(key);
        assert(plain_key(below)) by {
            assert forall|i: int| 0 <= i < below.steps.len() implies ((
            #[trigger] below.steps[i]) matches Step::Literal(text) ==> coverage::plain_segment(
                text,
            )) by {
                assert(below.steps[i] == key.steps[i + 1]);
            }
        }
        if below == routing::here(Tail::Leaf) {
            lemma_head(seg, Seq::empty(), false);
            assert(below.steps.len() == 0);
            seg
        } else {
            let rest = lemma_sample(below);
            let t = seg + seq![0x2Fu8] + rest;
            lemma_head(seg, rest, true);
            if rest.len() == 0 {
                assert(below == routing::here(Tail::LeafSlash));
                assert(key.steps.len() == 1 + below.steps.len());
            }
            t
        }
    }
}

/// The first segment of a body that begins with a segment.
pub proof fn lemma_head(seg: Seq<u8>, rest: Seq<u8>, more: bool)
    requires
        coverage::plain_segment(seg),
    ensures
        more ==> {
            let t = seg + seq![0x2Fu8] + rest;
            routing::head(t) == seg && routing::goes_on(t) && routing::rest(t) == rest
        },
        !more ==> routing::head(seg) == seg && !routing::goes_on(seg),
{
    if more {
        let t = seg + seq![0x2Fu8] + rest;
        routing::lemma_next_slash(t, 0);
        let m = routing::next_slash(t, 0);
        assert(t[seg.len() as int] == 0x2F);
        if m < seg.len() {
            assert(seg.contains(seg[m]));
            assert(t[m] == seg[m]);
        }
        assert(m == seg.len()) by {
            if m > seg.len() {
                assert(t[seg.len() as int] != 0x2F);
            }
        }
        assert(t.take(m) =~= seg);
        assert(t.skip(m + 1) =~= rest);
    } else {
        routing::lemma_next_slash(seg, 0);
        let m = routing::next_slash(seg, 0);
        if m < seg.len() {
            assert(seg.contains(seg[m]));
        }
        assert(seg.take(m) =~= seg);
    }
}

/// The terminal behind literal segments.
spec fn behind_all(segs: Seq<Seq<u8>>, key: Key) -> Key
    decreases segs.len(),
{
    if segs.len() == 0 {
        key
    } else {
        routing::behind(Step::Literal(segs[0]), behind_all(segs.skip(1), key))
    }
}

/// The walk along the segments of a settled subtree finds its outcome alone, and leaves nothing
/// undecided.
proof fn lemma_settled_walk(
    slots: Slots,
    segs: Seq<Seq<u8>>,
    method: http::Method,
    outcome: RawMatch,
)
    requires
        coverage::plain(segs),
        settled(slots, segs, method, outcome),
        forall|key: Key|
            routing::decide(#[trigger] slots(key), method) is Some ==> plain_key(key),
        routing::decide(slots(behind_all(segs, routing::here(Tail::CatchAll))), method) is Some,
        routing::decide(slots(behind_all(segs, routing::here(Tail::LeafSlash))), method) is Some,
    ensures
        routing::walk(slots, segs, method).1,
        forall|o: RawMatch| #[trigger]
            routing::walk(slots, segs, method).0.contains(o) ==> o == outcome,
    decreases segs.len(),
{
    if segs.len() == 0 {
        assert forall|o: RawMatch| #[trigger]
            routing::walk(slots, segs, method).0.contains(o) implies o == outcome by {
            let key = choose|key: Key|
                (false || key != routing::here(Tail::Leaf)) && routing::decide(
                    #[trigger] slots(key),
                    method,
                ) == Some(o);
            let t = lemma_sample(key);
            assert(coverage::extend(segs, t) == t);
            assert(reaches(key, coverage::extend(segs, t)));
        }
    } else {
        let step = Step::Literal(segs[0]);
        let under = routing::under(slots, step);
        let rest = segs.skip(1);
        assert(coverage::plain_segment(segs[0]));
        assert(coverage::plain(rest)) by {
            assert forall|i: int| 0 <= i < rest.len() implies coverage::plain_segment(
                #[trigger] rest[i],
            ) by {
                assert(rest[i] == segs[i + 1]);
            }
        }
        assert(settled(under, rest, method, outcome)) by {
            assert forall|key: Key, t: Seq<u8>| #[trigger]
                reaches(key, coverage::extend(rest, t)) && routing::decide(under(key), method) is Some implies routing::decide(
                under(key),
                method,
            ) == Some(outcome) by {
                let whole = routing::behind(step, key);
                let body = coverage::extend(rest, t);
                let all = coverage::extend(segs, t);
                assert(all == segs[0] + seq![0x2Fu8] + body);
                lemma_head(segs[0], body, true);
                assert(routing::below(whole).steps =~= key.steps);
                assert(routing::below(whole) == key);
                if body.len() == 0 {
                    assert(whole.steps.len() == 1);
                }
                assert(reaches(whole, all));
            }
        }
        assert forall|key: Key| routing::decide(#[trigger] under(key), method) is Some implies plain_key(
            key,
        ) by {
            let whole = routing::behind(step, key);
            assert(routing::decide(slots(whole), method) is Some);
            assert forall|i: int| 0 <= i < key.steps.len() implies ((
            #[trigger] key.steps[i]) matches Step::Literal(text) ==> coverage::plain_segment(
                text,
            )) by {
                assert(whole.steps[i + 1] == key.steps[i]);
            }
        }
        lemma_settled_walk(under, rest, method, outcome);
    }
}

/// What is firm up to a slash is a pristine prefix.
proof fn lemma_firm_is_pristine(path: Seq<u8>, k: int, config: GuardConfig)
    requires
        anchor_laws::firm_until(path, k, config),
    ensures
        agreement::pristine(path.take(k + 1), rewriting::declared(config)),
{
    let p = rewriting::declared(config);
    let q = path.take(k + 1);
    assert(q.last() == path[k]);
    assert forall|i: int| 0 <= i < q.len() implies {
        &&& #[trigger] q[i] != 0x25
        &&& q[i] != 0
        &&& q[i] != 0x3B
        &&& !(p.backslash && q[i] == 0x5C)
        &&& !(p.fold && 0x41 <= q[i] <= 0x5A)
    } by {
        assert(q[i] == path[i]);
    }
    assert forall|i: int| #![trigger q[i]] 0 < i < q.len() implies !(q[i - 1] == 0x2F && q[i]
        == 0x2F) by {
        assert(q[i] == path[i] && q[i - 1] == path[i - 1]);
    }
    assert forall|i: int| !(#[trigger] agreement::dots_at(q, i)) by {
        if agreement::dots_at(q, i) {
            assert(q[i] == path[i] && q[i - 1] == path[i - 1] && q[i + 1] == path[i + 1]);
            if q[i + 1] == 0x2F {
                assert(canonical_laws::dot_name(path, i, i + 1));
            } else {
                assert(q[i + 2] == path[i + 2]);
                assert(canonical_laws::dot_name(path, i, i + 2));
            }
        }
    }
    assert forall|i: int| !(#[trigger] agreement::spelled_at(q, p, i)) by {
        if let Some((c, w)) = structural::form_at(q, p.enc, i) {
            rewriting::lemma_spelling(q, p.enc, i);
            assert(rewriting::spells(q, p.enc, i, c, w));
            assert(forall|j: int| i <= j < i + w ==> q[j] == path[j]);
            assert(rewriting::spells(path, p.enc, i, c, w));
        }
    }
}

/// Whether the pattern is the prefix, a slash and a catch-all.
pub open spec fn tail_pattern(pat: Seq<char>, prefix: Seq<char>) -> bool {
    exists|name: Seq<char>| #[trigger]
        pattern_laws::nameable(name) && pat == prefix + seq!['/', '{', '*'] + name + seq!['}']
}

/// Whether the registration has a rule for the method: rule `k` lists it, or is for all methods
/// where none lists it.
pub open spec fn rule_for<R>(plan: Plan<R>, k: int, method: http::Method) -> bool {
    &&& 0 <= k < plan.rules.len()
    &&& match plan.rules[k].0 {
        Methods::OneOf(ms) => ms.contains(method),
        Methods::Any => forall|l: int|
            0 <= l < plan.rules.len() ==> ((#[trigger] plan.rules[l]).0 matches Methods::OneOf(ms)
                ==> !ms.contains(method)),
    }
}

/// Whether registration `i` covers everything below the prefix, and no other registration
/// covers anything there.
pub open spec fn owns<R>(plans: Seq<Plan<R>>, i: int, prefix: Seq<char>) -> bool {
    let below = vstd::utf8::encode_utf8(prefix) + seq!['/' as u8];
    &&& 0 <= i < plans.len()
    &&& exists|j: int|
        0 <= j < plans[i].patterns.len() && #[trigger] plans[i].patterns[j] == prefix + seq!['/']
    &&& exists|j: int|
        0 <= j < plans[i].patterns.len() && tail_pattern(#[trigger] plans[i].patterns[j], prefix)
    &&& forall|other: int, j: int, t: Seq<u8>|
        0 <= other < plans.len() && 0 <= j < plans[other].patterns.len() && #[trigger]
            routing::covers(route_laws::terminal(plans[other].patterns[j]), below + t) ==> other
            == i
}

/// Whether no other registration than `i` covers the path.
pub open spec fn sole<R>(plans: Seq<Plan<R>>, i: int, path: Seq<u8>) -> bool {
    &&& 0 <= i < plans.len()
    &&& forall|other: int, j: int|
        0 <= other < plans.len() && 0 <= j < plans[other].patterns.len() && #[trigger]
            routing::covers(route_laws::terminal(plans[other].patterns[j]), path) ==> other == i
}

/// Where no other registration covers the path, every terminal that decides gives the rule.
proof fn lemma_sole_terminal<R>(
    router: RuleRouter<R>,
    default: R,
    config: GuardConfig,
    plans: Seq<Plan<R>>,
    i: int,
    k: int,
    method: http::Method,
    key: Key,
    path: Seq<u8>,
)
    requires
        router.realizes(default, config, plans),
        path_router::plans_fault(plans, config) is None,
        sole(plans, i, path),
        rule_for(plans[i], k, method),
        routing::covers(key, path),
        routing::decide(router.guard.router.slots()(key), method) is Some,
    ensures
        routing::decide(router.guard.router.slots()(key), method) == Some(
            RawMatch::Matched { id: (route_laws::rules_before(plans, i) + k) as RuleId },
        ),
{
    let slots = router.guard.router.slots();
    let entries = router.entries@;
    let gap = slots(key).claim->Some_0;
    table_laws::terminals_hold_what_is_registered(entries, slots, key, None, 0, gap);
    let e = choose|e: int|
        0 <= e < entries.len() && routing::key_of((#[trigger] entries[e]).pattern@) == key
            && entries[e].claim == Some(gap);
    assert(path_router::writes(entries[e], path_router::all_rows(plans)[e]));
    let (o, j) = router_laws::lemma_row_at(plans, e);
    let pat = plans[o].patterns[j];
    assert(route_laws::terminal(pat) == key);
    assert(routing::covers(route_laws::terminal(plans[o].patterns[j]), path));
    assert(o == i);
    route_laws::lemma_terminal(router, default, config, plans, i, j, k, method);
    if plans[i].rules[k].0 == Methods::Any {
        if route_laws::lists(plans, pat, method) {
            let (a, b, c) = choose|a: int, b: int, c: int| #[trigger]
                route_laws::lists_at(plans, pat, method, a, b, c);
            assert(routing::covers(route_laws::terminal(plans[a].patterns[b]), path));
            assert(a == i);
            assert(plans[i].rules[c].0 is OneOf);
        }
        route_laws::lemma_unlisted(router, default, config, plans, pat, method);
    }
}

/// A path that one registration alone covers gets that registration's rule for the method.
pub proof fn sole_registrations_select_their_rule<R>(
    router: RuleRouter<R>,
    default: R,
    config: GuardConfig,
    plans: Seq<Plan<R>>,
    i: int,
    j: int,
    k: int,
    path: Seq<u8>,
    method: http::Method,
)
    requires
        router.realizes(default, config, plans),
        path_router::plans_fault(plans, config) is None,
        sole(plans, i, path),
        0 <= j < plans[i].patterns.len(),
        routing::covers(route_laws::terminal(plans[i].patterns[j]), path),
        rule_for(plans[i], k, method),
    ensures
        router.answer(router.guard.raw(path, method)) == Ok::<RuleMatch<'_, R>, ResolveError>(
            RuleMatch::Matched {
                id: (route_laws::rules_before(plans, i) + k) as u32,
                rule: &plans[i].rules[k].1,
            },
        ),
{
    let slots = router.guard.router.slots();
    let key = route_laws::terminal(plans[i].patterns[j]);
    lemma_decides(router, default, config, plans, i, j, k, method);
    assert(routing::contends(slots, key, path, method));
    if path.len() > 1 {
        routing::lemma_find_identity(slots, path, method);
        let chosen = routing::find(slots, path.skip(1), method)->Some_0;
        assert(routing::contends(slots, chosen, path, method));
        lemma_sole_terminal(router, default, config, plans, i, k, method, chosen, path);
    } else {
        assert(routing::selects(slots, key, path, method)) by {
            assert forall|other: Key| #[trigger]
                routing::contends(slots, other, path, method) implies other == key
                || routing::outranks(key, other) by {}
        }
        routing::lemma_identity(slots, key, path, method);
        lemma_sole_terminal(router, default, config, plans, i, k, method, key, path);
    }
    route_laws::lemma_rules_before(plans, i);
    router_laws::lemma_rule_at(plans, i, k);
    router_laws::lemma_faultless(plans, config, i);
}

/// Below the prefix, every terminal that decides gives the rule.
proof fn lemma_owned_terminal<R>(
    router: RuleRouter<R>,
    default: R,
    config: GuardConfig,
    plans: Seq<Plan<R>>,
    i: int,
    k: int,
    prefix: Seq<char>,
    method: http::Method,
    key: Key,
    t: Seq<u8>,
)
    requires
        router.realizes(default, config, plans),
        path_router::plans_fault(plans, config) is None,
        owns(plans, i, prefix),
        rule_for(plans[i], k, method),
        routing::covers(key, vstd::utf8::encode_utf8(prefix) + seq![0x2Fu8] + t),
        routing::decide(router.guard.router.slots()(key), method) is Some,
    ensures
        routing::decide(router.guard.router.slots()(key), method) == Some(
            RawMatch::Matched { id: (route_laws::rules_before(plans, i) + k) as RuleId },
        ),
{
    let below = vstd::utf8::encode_utf8(prefix) + seq!['/' as u8];
    assert(below =~= vstd::utf8::encode_utf8(prefix) + seq![0x2Fu8]);
    assert(sole(plans, i, below + t));
    lemma_sole_terminal(router, default, config, plans, i, k, method, key, below + t);
}

/// Terminals that decide have segments for literals.
proof fn lemma_deciding_is_plain<R>(router: RuleRouter<R>, key: Key, method: http::Method)
    requires
        router.wf(),
        routing::decide(router.guard.router.slots()(key), method) is Some,
    ensures
        plain_key(key),
{
    let slots = router.guard.router.slots();
    let entries = router.entries@;
    let gap = slots(key).claim->Some_0;
    table_laws::terminals_hold_what_is_registered(entries, slots, key, None, 0, gap);
    let e = choose|e: int|
        0 <= e < entries.len() && routing::key_of((#[trigger] entries[e]).pattern@) == key
            && entries[e].claim == Some(gap);
    let shape = entries[e].pattern@;
    assert(pattern::grammatical(shape));
    assert forall|i: int| 0 <= i < shape.segments.len() implies ((
    #[trigger] shape.segments[i]) matches pattern::Seg::Literal(text) ==> text.len() > 0
        && !text.contains('/')) by {}
    lemma_plain_steps(shape.segments, shape.trailing_slash);
}

proof fn lemma_plain_steps(segs: Seq<pattern::Seg>, slash: bool)
    requires
        forall|i: int|
            0 <= i < segs.len() ==> ((#[trigger] segs[i]) matches pattern::Seg::Literal(text)
                ==> text.len() > 0 && !text.contains('/')),
    ensures
        plain_key(routing::key_from(segs, slash)),
    decreases segs.len(),
{
    if segs.len() > 0 {
        let rest = segs.skip(1);
        assert forall|i: int| 0 <= i < rest.len() implies ((
        #[trigger] rest[i]) matches pattern::Seg::Literal(text) ==> text.len() > 0
            && !text.contains('/')) by {
            assert(rest[i] == segs[i + 1]);
        }
        lemma_plain_steps(rest, slash);
        let key = routing::key_from(segs, slash);
        let inner = routing::key_from(rest, slash);
        if let pattern::Seg::Literal(text) = segs[0] {
            exclusive_laws::lemma_plain_text(text);
        }
        assert forall|i: int| 0 <= i < key.steps.len() implies ((
        #[trigger] key.steps[i]) matches Step::Literal(text) ==> coverage::plain_segment(text)) by {
            if i > 0 {
                assert(key.steps[i] == inner.steps[i - 1]);
            }
        }
    }
}

/// The segments of a text in UTF-8.
spec fn encoded(segs: Seq<Seq<char>>) -> Seq<Seq<u8>> {
    segs.map_values(|seg: Seq<char>| vstd::utf8::encode_utf8(seg))
}

/// The segments of an anchor that is spelled from segments.
proof fn lemma_encoded_segments(segs: Seq<Seq<char>>)
    requires
        forall|i: int|
            0 <= i < segs.len() ==> (#[trigger] segs[i]).len() > 0 && !segs[i].contains('/'),
    ensures
        routing::anchor_segments(
            vstd::utf8::encode_utf8(pattern_laws::slashed(segs)) + seq![0x2Fu8],
        ) == encoded(segs),
        coverage::plain(encoded(segs)),
    decreases segs.len(),
{
    let slash = seq![0x2Fu8];
    let none = Seq::<u8>::empty();
    routing::lemma_next_slash(none, 0);
    routing::lemma_next_slash(slash, 0);
    assert(routing::head(slash) =~= none);
    assert(routing::rest(slash) =~= none);
    assert(routing::anchor_segments(none) =~= Seq::<Seq<u8>>::empty());
    assert(routing::anchor_segments(slash) == routing::anchor_segments(none));
    if segs.len() == 0 {
        assert(pattern_laws::slashed(segs) =~= Seq::<char>::empty());
        assert(vstd::utf8::encode_utf8(pattern_laws::slashed(segs)) =~= none);
        assert(none + slash =~= slash);
        assert(encoded(segs) =~= Seq::<Seq<u8>>::empty());
    } else {
        let less = segs.drop_last();
        let last = segs.last();
        assert forall|i: int| 0 <= i < less.len() implies (#[trigger] less[i]).len() > 0
            && !less[i].contains('/') by {
            assert(less[i] == segs[i]);
        }
        lemma_encoded_segments(less);
        let u = vstd::utf8::encode_utf8(pattern_laws::slashed(less)) + slash;
        let seg = vstd::utf8::encode_utf8(last);
        assert(last.len() > 0 && !last.contains('/')) by {
            assert(last == segs[segs.len() - 1]);
        }
        exclusive_laws::lemma_plain_text(last);
        let t = seg + slash;
        overlap_laws::lemma_encode_slash();
        overlap_laws::lemma_encode_concat(pattern_laws::slashed(less) + seq!['/'], last);
        overlap_laws::lemma_encode_concat(pattern_laws::slashed(less), seq!['/']);
        assert(vstd::utf8::encode_utf8(pattern_laws::slashed(segs)) + slash =~= u + t);
        guard_laws::lemma_segments_split(u, t);
        lemma_head(seg, none, true);
        assert(seg + slash + none =~= t);
        assert(routing::anchor_segments(t) =~= seq![seg]);
        assert(encoded(segs) =~= encoded(less) + seq![seg]);
        assert forall|i: int| 0 <= i < encoded(segs).len() implies coverage::plain_segment(
            #[trigger] encoded(segs)[i],
        ) by {
            if i < less.len() {
                assert(encoded(segs)[i] == encoded(less)[i]);
            }
        }
    }
}

/// The terminal of texts, and what follows them.
proof fn lemma_texts_key(segs: Seq<Seq<char>>, rest: Seq<pattern::Seg>, slash: bool)
    ensures
        routing::key_from(
            segs.map_values(|seg: Seq<char>| pattern::Seg::Literal(seg)) + rest,
            slash,
        ) == behind_all(encoded(segs), routing::key_from(rest, slash)),
    decreases segs.len(),
{
    let lits = segs.map_values(|seg: Seq<char>| pattern::Seg::Literal(seg));
    if segs.len() == 0 {
        assert(lits + rest =~= rest);
    } else {
        let others = segs.skip(1);
        lemma_texts_key(others, rest, slash);
        let all = lits + rest;
        assert(all[0] == pattern::Seg::Literal(segs[0]));
        assert(all.skip(1) =~= others.map_values(|seg: Seq<char>| pattern::Seg::Literal(seg))
            + rest);
        assert(encoded(segs).skip(1) =~= encoded(others));
    }
}

/// The terminals of a subtree.
proof fn lemma_subtree_terminals(prefix: Seq<char>, pat: Seq<char>)
    requires
        pattern_laws::is_static(prefix),
        prefix.len() > 1,
        prefix.last() != '/',
    ensures
        ({
            let q = vstd::utf8::encode_utf8(prefix) + seq![0x2Fu8];
            let segs = routing::anchor_segments(q);
            &&& coverage::plain(segs)
            &&& segs.len() > 0
            &&& route_laws::terminal(prefix + seq!['/']) == behind_all(
                segs,
                routing::here(Tail::LeafSlash),
            )
            &&& tail_pattern(pat, prefix) ==> route_laws::terminal(pat) == behind_all(
                segs,
                routing::here(Tail::CatchAll),
            )
        }),
{
    let segs = pattern_laws::lemma_static_pieces(prefix);
    let pieces = segs.map_values(|seg: Seq<char>| Piece::Text(seg));
    assert forall|i: int| 0 <= i < segs.len() implies (#[trigger] segs[i]).len() > 0
        && !segs[i].contains('/') by {
        assert(pattern_laws::writable(pieces[i]));
    }
    lemma_encoded_segments(segs);
    let lits = segs.map_values(|seg: Seq<char>| pattern::Seg::Literal(seg));
    assert(pieces.map_values(|piece: Piece| pattern_laws::meaning(piece)) =~= lits);
    assert(pattern_laws::well_formed(pieces, true)) by {
        assert forall|i: int| 0 <= i < pieces.len() implies pattern_laws::writable(
            #[trigger] pieces[i],
        ) by {}
    }
    pattern_laws::patterns_say_what_is_written(pieces, true);
    assert(pattern_laws::pattern_text(segs, true) =~= prefix + seq!['/']);
    let none = Seq::<pattern::Seg>::empty();
    lemma_texts_key(segs, none, true);
    assert(lits + none =~= lits);
    if tail_pattern(pat, prefix) {
        let name = choose|name: Seq<char>| #[trigger]
            pattern_laws::nameable(name) && pat == prefix + seq!['/', '{', '*'] + name + seq!['}'];
        let more = pieces.push(Piece::Rest(name));
        assert(pattern_laws::well_formed(more, false)) by {
            assert forall|i: int| 0 <= i < more.len() implies pattern_laws::writable(
                #[trigger] more[i],
            ) by {
                if i < pieces.len() {
                    assert(more[i] == pieces[i]);
                }
            }
        }
        pattern_laws::patterns_say_what_is_written(more, false);
        let texts = pattern_laws::texts(more);
        let end = pattern_laws::written(Piece::Rest(name));
        assert(texts =~= segs.push(end)) by {
            assert forall|i: int| 0 <= i < texts.len() implies texts[i] == segs.push(end)[i] by {
                if i < segs.len() {
                    assert(pattern_laws::texts(pieces)[i] == segs[i]);
                }
            }
        }
        assert(texts.drop_last() =~= segs);
        assert(pattern_laws::slashed(texts) == pattern_laws::slashed(segs) + seq!['/'] + end);
        assert(pattern_laws::pattern_text(texts, false) =~= pat);
        let open = seq![pattern::Seg::CatchAll];
        lemma_texts_key(segs, open, false);
        assert(more.map_values(|piece: Piece| pattern_laws::meaning(piece)) =~= lits + open);
    }
}

/// Every path below the prefix selects the rule, and the analysis of the region finds nothing
/// else.
proof fn lemma_below<R>(
    router: RuleRouter<R>,
    default: R,
    config: GuardConfig,
    plans: Seq<Plan<R>>,
    i: int,
    k: int,
    prefix: Seq<char>,
    u: Seq<u8>,
    method: http::Method,
)
    requires
        router.realizes(default, config, plans),
        path_router::plans_fault(plans, config) is None,
        pattern_laws::is_static(prefix),
        prefix.len() > 1,
        prefix.last() != '/',
        owns(plans, i, prefix),
        rule_for(plans[i], k, method),
        agreement::pristine(
            vstd::utf8::encode_utf8(prefix) + seq![0x2Fu8],
            rewriting::declared(config),
        ),
    ensures
        ({
            let q = vstd::utf8::encode_utf8(prefix) + seq![0x2Fu8];
            let outcome = RawMatch::Matched {
                id: (route_laws::rules_before(plans, i) + k) as RuleId,
            };
            &&& router.guard.raw(q + u, method) == outcome
            &&& forall|o: RawMatch| #[trigger]
                routing::anchored(
                    router.guard.router.slots(),
                    routing::anchor_segments(q),
                    method,
                ).contains(o) ==> o == outcome
        }),
{
    let head = vstd::utf8::encode_utf8(prefix);
    let q = head + seq![0x2Fu8];
    let slots = router.guard.router.slots();
    let outcome = RawMatch::Matched { id: (route_laws::rules_before(plans, i) + k) as RuleId };
    let segs = routing::anchor_segments(q);
    pattern_laws::lemma_encoded_slash_first(prefix);
    assert forall|key: Key, t: Seq<u8>| #[trigger]
        reaches(key, coverage::extend(segs, t)) && routing::decide(slots(key), method) is Some implies routing::decide(
        slots(key),
        method,
    ) == Some(outcome) by {
        agreement_laws::lemma_spelled_out(q, t, rewriting::declared(config));
        let body = coverage::extend(segs, t);
        let whole = q + t;
        assert(whole == seq![0x2Fu8] + body);
        assert(body.len() > 0) by {
            assert(whole.len() >= 2);
        }
        assert(whole.skip(1) =~= body);
        assert(whole =~= head + seq![0x2Fu8] + t);
        lemma_owned_terminal(router, default, config, plans, i, k, prefix, method, key, t);
    }
    assert forall|key: Key| routing::decide(#[trigger] slots(key), method) is Some implies plain_key(
        key,
    ) by {
        lemma_deciding_is_plain(router, key, method);
    }
    let js = choose|j: int|
        0 <= j < plans[i].patterns.len() && #[trigger] plans[i].patterns[j] == prefix + seq!['/'];
    let jr = choose|j: int|
        0 <= j < plans[i].patterns.len() && tail_pattern(#[trigger] plans[i].patterns[j], prefix);
    lemma_subtree_terminals(prefix, plans[i].patterns[jr]);
    lemma_decides(router, default, config, plans, i, js, k, method);
    lemma_decides(router, default, config, plans, i, jr, k, method);
    lemma_settled_walk(slots, segs, method, outcome);
    agreement_laws::lemma_spelled_out(q, u, rewriting::declared(config));
    let path = q + u;
    let body = coverage::extend(segs, u);
    assert(path.skip(1) =~= body);
    let tail = if u.len() == 0 {
        Tail::LeafSlash
    } else {
        Tail::CatchAll
    };
    let key = behind_all(segs, routing::here(tail));
    lemma_reached(segs, tail, u);
    assert(body.len() > 0) by {
        assert(path.len() >= 2);
    }
    assert(routing::contends(slots, key, path, method));
    routing::lemma_find_identity(slots, path, method);
    let chosen = routing::find(slots, body, method)->Some_0;
    assert(routing::contends(slots, chosen, path, method));
    assert(reaches(chosen, coverage::extend(segs, u)));
}

/// Decoding leaves a prefix without `%`.
proof fn lemma_decode_behind(q: Seq<u8>, t: Seq<u8>, n: nat)
    requires
        !q.contains(0x25),
    ensures
        rewriting::decoded_times(q + t, n) == q + rewriting::decoded_times(t, n),
    decreases n,
{
    if n > 0 {
        let m = (n - 1) as nat;
        lemma_decode_behind(q, t, m);
        lemma_decoded_behind(q, rewriting::decoded_times(t, m));
    }
}

proof fn lemma_decoded_behind(q: Seq<u8>, t: Seq<u8>)
    requires
        !q.contains(0x25),
    ensures
        rewriting::decoded(q + t) == q + rewriting::decoded(t),
    decreases q.len(),
{
    if q.len() == 0 {
        assert(q + t =~= t);
        assert(q + rewriting::decoded(t) =~= rewriting::decoded(t));
    } else {
        let all = q + t;
        let rest = q.skip(1);
        assert(q.contains(q[0]));
        assert(rewriting::escaped(all, 0) is None) by {
            assert forall|b: u8| !rewriting::escapes(all, 0, b) by {}
        }
        assert(!rest.contains(0x25)) by {
            if rest.contains(0x25) {
                let i = rest.index_of(0x25);
                assert(q[i + 1] == 0x25);
            }
        }
        lemma_decoded_behind(rest, t);
        assert(all.skip(1) =~= rest + t);
        assert(seq![q[0]] + (rest + rewriting::decoded(t)) =~= q + rewriting::decoded(t));
    }
}

/// A request inside a subtree that belongs to one rule is accepted, whatever structural forms,
/// escapes and letters follow the prefix, and gets that rule: as long as nothing in the prefix
/// can be rewritten, no segment can become a dot-segment, and no NUL shows.
#[verifier::rlimit(50)]
pub proof fn requests_inside_a_subtree_are_accepted<R>(
    router: RuleRouter<R>,
    default: R,
    config: GuardConfig,
    plans: Seq<Plan<R>>,
    i: int,
    k: int,
    prefix: Seq<char>,
    t: Seq<u8>,
    method: http::Method,
)
    requires
        router.realizes(default, config, plans),
        path_router::plans_fault(plans, config) is None,
        config.mode == GuardMode::RejectAmbiguous,
        pattern_laws::is_static(prefix),
        prefix.len() > 1,
        prefix.last() != '/',
        owns(plans, i, prefix),
        rule_for(plans[i], k, method),
        ({
            let path = vstd::utf8::encode_utf8(prefix) + seq!['/' as u8] + t;
            &&& path.len() <= config.max_path_len
            &&& path.len() < usize::MAX
            &&& anchor_laws::firm_until(
                path,
                vstd::utf8::encode_utf8(prefix).len() as int,
                config,
            )
            &&& anchor_laws::climbless(path, config)
            &&& !verdict_laws::shows_nul(path, config)
        }),
    ensures
        ({
            let path = vstd::utf8::encode_utf8(prefix) + seq!['/' as u8] + t;
            &&& router.guard.builtin_denial(path, method) is None
            &&& router.answer(router.guard.raw(path, method)) == Ok::<
                RuleMatch<'_, R>,
                ResolveError,
            >(
                RuleMatch::Matched {
                    id: (route_laws::rules_before(plans, i) + k) as u32,
                    rule: &plans[i].rules[k].1,
                },
            )
        }),
{
    let head = vstd::utf8::encode_utf8(prefix);
    let q = head + seq![0x2Fu8];
    let path = q + t;
    let n = head.len() as int;
    let slots = router.guard.router.slots();
    let segs = routing::anchor_segments(q);
    assert(path =~= head + seq!['/' as u8] + t);
    assert(path.take(n + 1) =~= q);
    lemma_firm_is_pristine(path, n, config);
    lemma_below(router, default, config, plans, i, k, prefix, t, method);
    route_laws::lemma_rules_before(plans, i);
    router_laws::lemma_rule_at(plans, i, k);
    router_laws::lemma_faultless(plans, config, i);
    if verdict_laws::formless(path, config) {
        let fold = config.case_sensitivity == CaseSensitivity::Insensitive;
        assert(!q.contains(0x25)) by {
            if q.contains(0x25) {
                let x = q.index_of(0x25);
                assert(q[x] != 0x25);
            }
        }
        assert forall|m: nat| m <= rewriting::passes(config) implies {
            &&& router.guard.raw(#[trigger] rewriting::decoded_times(path, m), method)
                == router.guard.raw(path, method)
            &&& fold ==> router.guard.raw(
                rewriting::lowercase(rewriting::decoded_times(path, m)),
                method,
            ) == router.guard.raw(path, method)
        } by {
            lemma_decode_behind(q, t, m);
            let u = rewriting::decoded_times(t, m);
            lemma_below(router, default, config, plans, i, k, prefix, u, method);
            if fold {
                let v = rewriting::lowercase(u);
                lemma_below(router, default, config, plans, i, k, prefix, v, method);
                assert(rewriting::lowercase(q + u) =~= q + v) by {
                    assert forall|x: int| 0 <= x < q.len() implies rewriting::lowercased(
                        #[trigger] q[x],
                    ) == q[x] by {
                        assert(!(0x41 <= q[x] <= 0x5A));
                    }
                }
            }
        }
        verdict_laws::comparisons_are_exact(router.guard, config, path, method);
    } else {
        canonical_laws::survey_is_exact(path, router.guard.lens());
        anchor_laws::anchors_reach_as_far_as_they_can(router.guard, config, path, n);
        let anchor = router.guard.anchor(path);
        let more = anchor.skip(n + 1);
        assert(anchor =~= q + more) by {
            assert(anchor.take(n + 1) =~= q);
        }
        guard_laws::lemma_segments_split(q, more);
        guard_laws::lemma_fewer_outcomes(slots, segs, routing::anchor_segments(more), method);
        assert forall|o: RawMatch| #[trigger]
            router.guard.reachable(path, method).contains(o) implies o == router.guard.raw(
            path,
            method,
        ) by {
            assert(routing::anchored(slots, segs, method).contains(o));
        }
        verdict_laws::structural_check_is_exact(router.guard, config, path, method);
    }
}

/// A terminal of the registration decides.
proof fn lemma_decides<R>(
    router: RuleRouter<R>,
    default: R,
    config: GuardConfig,
    plans: Seq<Plan<R>>,
    i: int,
    j: int,
    k: int,
    method: http::Method,
)
    requires
        router.realizes(default, config, plans),
        path_router::plans_fault(plans, config) is None,
        0 <= i < plans.len(),
        0 <= j < plans[i].patterns.len(),
        rule_for(plans[i], k, method),
    ensures
        routing::decide(
            router.guard.router.slots()(route_laws::terminal(plans[i].patterns[j])),
            method,
        ) is Some,
{
    route_laws::lemma_terminal(router, default, config, plans, i, j, k, method);
}

/// The terminals of a subtree cover what is below it.
proof fn lemma_reached(segs: Seq<Seq<u8>>, tail: Tail, t: Seq<u8>)
    requires
        coverage::plain(segs),
        tail == if t.len() == 0 {
            Tail::LeafSlash
        } else {
            Tail::CatchAll
        },
    ensures
        behind_all(segs, routing::here(tail)).tail == tail,
        reaches(behind_all(segs, routing::here(tail)), coverage::extend(segs, t)),
    decreases segs.len(),
{
    if segs.len() > 0 {
        let rest = segs.skip(1);
        assert(coverage::plain_segment(segs[0]));
        assert forall|i: int| 0 <= i < rest.len() implies coverage::plain_segment(
            #[trigger] rest[i],
        ) by {
            assert(rest[i] == segs[i + 1]);
        }
        lemma_reached(rest, tail, t);
        let inner = coverage::extend(rest, t);
        lemma_head(segs[0], inner, true);
        let key = behind_all(segs, routing::here(tail));
        assert(routing::below(key).steps =~= behind_all(rest, routing::here(tail)).steps);
        if inner.len() == 0 {
            assert(key.steps.len() == 1);
        }
    }
}

} // verus!
