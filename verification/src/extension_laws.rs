//! What more registrations do: they add denials, as long as a path keeps its rule.

use vstd::prelude::*;

use crate::config::{GuardConfig, GuardMode};
use crate::cover::RuleId;
use crate::diagnostics::RawMatch;
use crate::guard::{PathConfusionGuard, Verdict};
use crate::path_router;
use crate::path_router::RuleRouter;
use crate::registration;
use crate::registration::{Methods, Plan};
use crate::router_laws;
use crate::routing;
use crate::routing::{Key, MethodGap, Slots, Step, Tail};
use crate::slot::PathEntry;
use crate::table;
use crate::table_laws;

verus! {

/// Whether the second table decides, for the method, what the first one decides, or something
/// other than the outcome.
pub open spec fn adds(slots: Slots, more: Slots, method: http::Method, kept: RawMatch) -> bool {
    forall|key: Key| #[trigger]
        routing::decide(more(key), method) == routing::decide(slots(key), method) || (
        routing::decide(more(key), method) matches Some(outcome) && outcome != kept)
}

/// Whether some outcome is another one.
pub open spec fn strays(outcomes: Set<RawMatch>, kept: RawMatch) -> bool {
    exists|outcome: RawMatch| #[trigger] outcomes.contains(outcome) && outcome != kept
}

/// What the second table decides about a terminal that the first one decides about.
proof fn lemma_still_decides(slots: Slots, more: Slots, method: http::Method, kept: RawMatch, key: Key)
    requires
        adds(slots, more, method, kept),
    ensures
        routing::decide(slots(key), method) is Some ==> routing::decide(more(key), method) is Some,
        routing::decide(slots(key), method) matches Some(outcome) && outcome != kept
            ==> routing::decide(more(key), method)->Some_0 != kept,
        routing::decide(slots(key), method) is None && routing::decide(more(key), method) is Some
            ==> routing::decide(more(key), method)->Some_0 != kept,
{
    assert(routing::decide(more(key), method) == routing::decide(slots(key), method) || (
    routing::decide(more(key), method) matches Some(outcome) && outcome != kept));
}

/// A path that selects another outcome goes on to do so.
proof fn lemma_identity_strays(
    slots: Slots,
    more: Slots,
    path: Seq<u8>,
    method: http::Method,
    kept: RawMatch,
)
    requires
        adds(slots, more, method, kept),
        routing::identity(slots, path, method) != kept,
    ensures
        routing::identity(more, path, method) != kept,
{
    if exists|key: Key| routing::selects(more, key, path, method) {
        let key = choose|key: Key| routing::selects(more, key, path, method);
        routing::lemma_identity(more, key, path, method);
        lemma_still_decides(slots, more, method, kept, key);
        if routing::identity(more, path, method) == kept {
            assert(routing::decide(slots(key), method) == routing::decide(more(key), method));
            assert(routing::contends(slots, key, path, method));
            assert forall|other: Key| #[trigger]
                routing::contends(slots, other, path, method) implies other == key
                || routing::outranks(key, other) by {
                lemma_still_decides(slots, more, method, kept, other);
                assert(routing::contends(more, other, path, method));
            }
            assert(routing::selects(slots, key, path, method));
            routing::lemma_identity(slots, key, path, method);
        }
    } else if exists|key: Key| routing::selects(slots, key, path, method) {
        let key = choose|key: Key| routing::selects(slots, key, path, method);
        assert(routing::contends(slots, key, path, method));
        lemma_still_decides(slots, more, method, kept, key);
        assert(routing::contends(more, key, path, method));
        if path.len() > 1 {
            routing::lemma_find_identity(more, path, method);
        } else {
            assert(routing::selects(more, key, path, method));
        }
    }
}

/// The tables behind a step.
proof fn lemma_adds_under(slots: Slots, more: Slots, step: Step, method: http::Method, kept: RawMatch)
    requires
        adds(slots, more, method, kept),
    ensures
        adds(routing::under(slots, step), routing::under(more, step), method, kept),
{
    let a = routing::under(slots, step);
    let b = routing::under(more, step);
    assert forall|key: Key| #[trigger]
        routing::decide(b(key), method) == routing::decide(a(key), method) || (routing::decide(
            b(key),
            method,
        ) matches Some(outcome) && outcome != kept) by {
        let whole = routing::behind(step, key);
        assert(routing::decide(more(whole), method) == routing::decide(slots(whole), method) || (
        routing::decide(more(whole), method) matches Some(outcome) && outcome != kept));
    }
}

/// A region with another outcome goes on to have one.
proof fn lemma_region_strays(
    slots: Slots,
    more: Slots,
    method: http::Method,
    kept: RawMatch,
    leaf: bool,
)
    requires
        adds(slots, more, method, kept),
        strays(routing::region(slots, method, leaf), kept),
    ensures
        strays(routing::region(more, method, leaf), kept),
{
    let outcome = choose|outcome: RawMatch| #[trigger]
        routing::region(slots, method, leaf).contains(outcome) && outcome != kept;
    let key = choose|key: Key|
        (leaf || key != routing::here(Tail::Leaf)) && routing::decide(
            #[trigger] slots(key),
            method,
        ) == Some(outcome);
    lemma_decision_strays(slots, more, method, kept, leaf, key);
}

/// A terminal that decides for another outcome puts one into the region.
proof fn lemma_decision_strays(
    slots: Slots,
    more: Slots,
    method: http::Method,
    kept: RawMatch,
    leaf: bool,
    key: Key,
)
    requires
        adds(slots, more, method, kept),
        leaf || key != routing::here(Tail::Leaf),
        routing::decide(slots(key), method) != Some(kept),
        routing::decide(more(key), method) is Some,
    ensures
        strays(routing::region(more, method, leaf), kept),
{
    lemma_still_decides(slots, more, method, kept, key);
    let now = routing::decide(more(key), method)->Some_0;
    assert(routing::decide(more(key), method) == Some(now));
    assert(routing::region(more, method, leaf).contains(now));
}

/// The walk along an anchor goes on to find another outcome, or something undecided.
proof fn lemma_walk_strays(
    slots: Slots,
    more: Slots,
    segs: Seq<Seq<u8>>,
    method: http::Method,
    kept: RawMatch,
)
    requires
        adds(slots, more, method, kept),
    ensures
        strays(routing::walk(slots, segs, method).0, kept) ==> strays(
            routing::walk(more, segs, method).0,
            kept,
        ),
        !routing::walk(slots, segs, method).1 ==> !routing::walk(more, segs, method).1 || strays(
            routing::walk(more, segs, method).0,
            kept,
        ),
    decreases segs.len(),
{
    let rest = routing::here(Tail::CatchAll);
    if segs.len() == 0 {
        let slash = routing::here(Tail::LeafSlash);
        if strays(routing::region(slots, method, false), kept) {
            lemma_region_strays(slots, more, method, kept, false);
        }
        if routing::decide(slots(rest), method) is None && routing::decide(
            more(rest),
            method,
        ) is Some {
            lemma_decision_strays(slots, more, method, kept, false, rest);
        }
        if routing::decide(slots(slash), method) is None && routing::decide(
            more(slash),
            method,
        ) is Some {
            lemma_decision_strays(slots, more, method, kept, false, slash);
        }
    } else {
        let literal = Step::Literal(segs[0]);
        let tail = segs.skip(1);
        lemma_adds_under(slots, more, literal, method, kept);
        lemma_adds_under(slots, more, Step::Wildcard, method, kept);
        lemma_walk_strays(
            routing::under(slots, literal),
            routing::under(more, literal),
            tail,
            method,
            kept,
        );
        lemma_walk_strays(
            routing::under(slots, Step::Wildcard),
            routing::under(more, Step::Wildcard),
            tail,
            method,
            kept,
        );
        lemma_still_decides(slots, more, method, kept, rest);
        let a = routing::walk(routing::under(slots, literal), tail, method);
        let b = routing::walk(routing::under(slots, Step::Wildcard), tail, method);
        let x = routing::walk(routing::under(more, literal), tail, method);
        let y = routing::walk(routing::under(more, Step::Wildcard), tail, method);
        let before = routing::walk(slots, segs, method);
        let after = routing::walk(more, segs, method);
        if strays(x.0, kept) {
            let outcome = choose|outcome: RawMatch| #[trigger]
                x.0.contains(outcome) && outcome != kept;
            assert(after.0.contains(outcome));
        } else if !x.1 {
            if strays(y.0, kept) {
                let outcome = choose|outcome: RawMatch| #[trigger]
                    y.0.contains(outcome) && outcome != kept;
                assert(after.0.contains(outcome));
            } else if strays(before.0, kept) {
                let outcome = choose|outcome: RawMatch| #[trigger]
                    before.0.contains(outcome) && outcome != kept;
                assert(!a.0.contains(outcome)) by {
                    if a.0.contains(outcome) {
                        assert(strays(a.0, kept));
                    }
                }
                assert(!b.0.contains(outcome)) by {
                    if b.0.contains(outcome) {
                        assert(strays(b.0, kept));
                    }
                }
                assert(routing::decide(slots(rest), method) == Some(outcome));
                assert(!b.1);
                let now = routing::decide(more(rest), method)->Some_0;
                assert(after.0.contains(now));
            } else if !before.1 {
                if let Some(now) = routing::decide(more(rest), method) {
                    assert(after.0.contains(now));
                }
            }
        } else {
            assert(a.1);
            if strays(before.0, kept) {
                assert(strays(a.0, kept));
            }
        }
    }
}

/// A region behind an anchor goes on to have another outcome.
proof fn lemma_anchored_strays(
    slots: Slots,
    more: Slots,
    segs: Seq<Seq<u8>>,
    method: http::Method,
    kept: RawMatch,
)
    requires
        adds(slots, more, method, kept),
        strays(routing::anchored(slots, segs, method), kept),
    ensures
        strays(routing::anchored(more, segs, method), kept),
{
    let outcome = choose|outcome: RawMatch| #[trigger]
        routing::anchored(slots, segs, method).contains(outcome) && outcome != kept;
    let after = routing::anchored(more, segs, method);
    if segs.len() == 0 {
        let leaf = routing::here(Tail::Leaf);
        let rest = routing::here(Tail::CatchAll);
        if routing::region(slots, method, true).contains(outcome) {
            lemma_region_strays(slots, more, method, kept, true);
        } else {
            if routing::decide(slots(leaf), method) is None {
                if routing::decide(more(leaf), method) is Some {
                    lemma_decision_strays(slots, more, method, kept, true, leaf);
                } else {
                    assert(after.contains(RawMatch::Default));
                }
            } else {
                if routing::decide(more(rest), method) is Some {
                    lemma_decision_strays(slots, more, method, kept, true, rest);
                } else {
                    assert(after.contains(RawMatch::Default));
                }
            }
        }
        if strays(routing::region(more, method, true), kept) {
            let o = choose|o: RawMatch| #[trigger]
                routing::region(more, method, true).contains(o) && o != kept;
            assert(after.contains(o));
        }
    } else {
        lemma_walk_strays(slots, more, segs, method, kept);
        let before = routing::walk(slots, segs, method);
        let now = routing::walk(more, segs, method);
        if before.0.contains(outcome) {
            assert(strays(before.0, kept));
        }
        if strays(now.0, kept) {
            let o = choose|o: RawMatch| #[trigger] now.0.contains(o) && o != kept;
            assert(after.contains(o));
        } else {
            assert(after.contains(RawMatch::Default));
        }
    }
}

/// Where a table decides no more for what a path selects, a guard over it denies what a
/// guard over the smaller table denies.
pub proof fn larger_tables_keep_denials(
    a: PathConfusionGuard,
    b: PathConfusionGuard,
    path: Seq<u8>,
    method: http::Method,
)
    requires
        b == (PathConfusionGuard { router: b.router, ..a }),
        adds(a.router.slots(), b.router.slots(), method, a.raw(path, method)),
        b.raw(path, method) == a.raw(path, method),
        a.builtin_denial(path, method) is Some,
    ensures
        b.builtin_denial(path, method) is Some,
{
    let kept = a.raw(path, method);
    let x = a.router.slots();
    let y = b.router.slots();
    assert forall|other: Seq<u8>| a.raw(other, method) != kept implies #[trigger] b.raw(
        other,
        method,
    ) != kept by {
        lemma_identity_strays(x, y, other, method, kept);
    }
    if a.mode == GuardMode::RejectAmbiguous {
        assert(a.lens() == b.lens());
        if a.structural_denial(path, method) is Some && b.structural_denial(path, method) is None {
            let segs = routing::anchor_segments(a.anchor(path));
            assert(a.anchor(path) == b.anchor(path));
            assert(strays(a.reachable(path, method), kept));
            lemma_anchored_strays(x, y, segs, method, kept);
        }
        if a.fold_denial(path, method) is Some && b.fold_denial(path, method) is None {
            assert(b.raw(crate::anchor::folded(path), method) == kept);
        }
        if a.decode_denial(path, method) is Some && b.decode_denial(path, method) is None {
            assert(b.decodes_in_place(path, 1, method));
            assert(a.enc.double_decode ==> b.decodes_in_place(path, 2, method));
            let fold = a.case_insensitive;
            let once = crate::percent::decode_times(path, 1);
            let twice = crate::percent::decode_times(path, 2);
            assert(b.raw(once, method) == kept);
            assert(b.raw(crate::guard::routed(once, fold), method) == kept);
            if a.enc.double_decode {
                assert(b.raw(twice, method) == kept);
                assert(b.raw(crate::guard::routed(twice, fold), method) == kept);
            }
        }
    }
}

/// Rules and rows of more registrations go behind those of the first ones.
proof fn lemma_appended<R>(plans: Seq<Plan<R>>, more: Seq<Plan<R>>)
    ensures
        path_router::all_rules(plans).is_prefix_of(path_router::all_rules(plans + more)),
        path_router::all_rows(plans).is_prefix_of(path_router::all_rows(plans + more)),
    decreases more.len(),
{
    if more.len() == 0 {
        assert(plans + more =~= plans);
    } else {
        let less = more.drop_last();
        lemma_appended(plans, less);
        assert((plans + more).drop_last() =~= plans + less);
    }
}

/// A row behind those of the first registrations comes from a later one.
proof fn lemma_later_row<R>(plans: Seq<Plan<R>>, more: Seq<Plan<R>>, x: int) -> (at: (int, int))
    requires
        path_router::all_rows(plans).len() <= x < path_router::all_rows(plans + more).len(),
    ensures
        0 <= at.0 < more.len(),
        0 <= at.1 < more[at.0].patterns.len(),
        path_router::all_rows(plans + more)[x] == path_router::plan_rows(
            more[at.0],
            router_laws::first_id(plans + more, plans.len() + at.0),
        )[at.1],
    decreases more.len(),
{
    let all = plans + more;
    if more.len() == 0 {
        assert(all =~= plans);
        (0, 0)
    } else {
        let less = more.drop_last();
        let n = more.len() - 1;
        assert(all.drop_last() =~= plans + less);
        assert(all.last() == more[n]);
        let rows = path_router::all_rows(plans + less);
        if x < rows.len() {
            let at = lemma_later_row(plans, less, x);
            assert((plans + less).take(plans.len() + at.0) =~= all.take(plans.len() + at.0));
            at
        } else {
            assert(all.take(plans.len() + n) =~= plans + less);
            (n, x - rows.len())
        }
    }
}

/// Whether each registration has a rule for the method, or something other than the outcome
/// for methods without a rule. Any registrations do where the outcome is a rule.
pub open spec fn gaps_differ<R>(
    plans: Seq<Plan<R>>,
    method: http::Method,
    outcome: RawMatch,
) -> bool {
    forall|i: int|
        0 <= i < plans.len() ==> serves((#[trigger] plans[i]).rules, method)
            || routing::decide_rule(Some(plans[i].gap), None) != Some(outcome)
}

/// Whether one of the rules is for the method.
pub open spec fn serves<R>(rules: Seq<(Methods, R)>, method: http::Method) -> bool {
    exists|k: int|
        0 <= k < rules.len() && router_laws::admits((#[trigger] rules[k]).0, method)
}

/// What the larger of two routers holds besides what the smaller one holds.
proof fn lemma_added_rule<R>(
    a: RuleRouter<R>,
    b: RuleRouter<R>,
    default: R,
    config: GuardConfig,
    plans: Seq<Plan<R>>,
    more: Seq<Plan<R>>,
    key: Key,
    method: Option<http::Method>,
    id: RuleId,
)
    requires
        a.realizes(default, config, plans),
        b.realizes(default, config, plans + more),
        path_router::plans_fault(plans + more, config) is None,
    ensures
        table::listed(a.entries@, key, method, id) ==> table::listed(b.entries@, key, method, id),
        table::listed(b.entries@, key, method, id) ==> table::listed(a.entries@, key, method, id)
            || id >= path_router::all_rules(plans).len(),
{
    lemma_appended(plans, more);
    let x = a.entries@;
    let y = b.entries@;
    let rows = path_router::all_rows(plans);
    let all = path_router::all_rows(plans + more);
    if table::listed(x, key, method, id) {
        let (e, r) = choose|e: int, r: int|
            0 <= e < x.len() && routing::key_of(x[e].pattern@) == key && 0 <= r
                < x[e].rules@.len() && #[trigger] table::gives(x[e].rules@[r], method, id);
        lemma_same_rule(x[e], y[e], rows, all, x, y, e, r, method, id);
        assert(table::gives(y[e].rules@[r], method, id));
    }
    if table::listed(y, key, method, id) {
        let (e, r) = choose|e: int, r: int|
            0 <= e < y.len() && routing::key_of(y[e].pattern@) == key && 0 <= r
                < y[e].rules@.len() && #[trigger] table::gives(y[e].rules@[r], method, id);
        if e < x.len() {
            lemma_same_rule(y[e], x[e], rows, all, x, y, e, r, method, id);
            assert(table::gives(x[e].rules@[r], method, id));
        } else {
            let (i, j) = lemma_later_row(plans, more, e);
            let at = plans.len() + i;
            router_laws::lemma_faultless(plans + more, config, at);
            assert(path_router::writes(y[e], all[e]));
            assert((plans + more)[at] == more[i]);
            let rules = registration::rules_of(y[e].rules@);
            assert(rules[r] == (registration::methods_of(y[e].rules@[r].0), y[e].rules@[r].1));
            assert(rules.len() == more[i].rules.len());
            assert(all[e].rules[r] == (
                more[i].rules[r].0,
                (router_laws::first_id(plans + more, at) + r) as u32,
            ));
            assert((plans + more).take(plans.len() as int) =~= plans);
            if i > 0 {
                lemma_ids_up(plans + more, plans.len() as int, at);
            }
        }
    }
}

/// Ids go up with the registrations.
proof fn lemma_ids_up<R>(plans: Seq<Plan<R>>, i: int, j: int)
    requires
        0 <= i <= j <= plans.len(),
    ensures
        router_laws::first_id(plans, i) <= router_laws::first_id(plans, j),
{
    if i < j {
        router_laws::lemma_ids_ascend(plans, i, j);
    }
}

/// Entries for the same row give the same rules.
proof fn lemma_same_rule(
    from: PathEntry,
    to: PathEntry,
    rows: Seq<path_router::Row>,
    all: Seq<path_router::Row>,
    x: Seq<PathEntry>,
    y: Seq<PathEntry>,
    e: int,
    r: int,
    method: Option<http::Method>,
    id: RuleId,
)
    requires
        rows.is_prefix_of(all),
        path_router::write_all(x, rows),
        path_router::write_all(y, all),
        0 <= e < x.len(),
        (from == x[e] && to == y[e]) || (from == y[e] && to == x[e]),
        0 <= r < from.rules@.len(),
        table::gives(from.rules@[r], method, id),
    ensures
        e < y.len(),
        from.pattern@ == to.pattern@,
        from.claim == to.claim,
        r < to.rules@.len(),
        table::gives(to.rules@[r], method, id),
{
    assert(rows[e] == all[e]);
    assert(path_router::writes(x[e], rows[e]));
    assert(path_router::writes(y[e], all[e]));
    let a = registration::rules_of(from.rules@);
    let b = registration::rules_of(to.rules@);
    assert(a == b);
    assert(a.len() == from.rules@.len() && b.len() == to.rules@.len());
    assert(a[r] == (registration::methods_of(from.rules@[r].0), from.rules@[r].1));
    assert(b[r] == (registration::methods_of(to.rules@[r].0), to.rules@[r].1));
}

/// What the claims of the larger router are.
proof fn lemma_added_claim<R>(
    a: RuleRouter<R>,
    b: RuleRouter<R>,
    default: R,
    config: GuardConfig,
    plans: Seq<Plan<R>>,
    more: Seq<Plan<R>>,
    key: Key,
    gap: MethodGap,
    method: http::Method,
    kept: RawMatch,
)
    requires
        a.realizes(default, config, plans),
        b.realizes(default, config, plans + more),
        gaps_differ(more, method, kept),
    ensures
        table_laws::claimed(a.entries@, key, gap) ==> table_laws::claimed(b.entries@, key, gap),
        table_laws::claimed(b.entries@, key, gap) ==> {
            ||| table_laws::claimed(a.entries@, key, gap)
            ||| routing::decide_rule(Some(gap), None) != Some(kept)
            ||| exists|m: Option<http::Method>, id: RuleId|
                (m is None || m == Some(method)) && #[trigger] table::listed(
                    b.entries@,
                    key,
                    m,
                    id,
                )
        },
{
    lemma_appended(plans, more);
    let x = a.entries@;
    let y = b.entries@;
    let rows = path_router::all_rows(plans);
    let all = path_router::all_rows(plans + more);
    if table_laws::claimed(x, key, gap) {
        let e = choose|e: int|
            0 <= e < x.len() && routing::key_of((#[trigger] x[e]).pattern@) == key && x[e].claim
                == Some(gap);
        assert(rows[e] == all[e]);
        assert(path_router::writes(x[e], rows[e]));
        assert(path_router::writes(y[e], all[e]));
        assert(y[e].claim == Some(gap));
    }
    if table_laws::claimed(y, key, gap) {
        let e = choose|e: int|
            0 <= e < y.len() && routing::key_of((#[trigger] y[e]).pattern@) == key && y[e].claim
                == Some(gap);
        assert(path_router::writes(y[e], all[e]));
        if e < x.len() {
            assert(rows[e] == all[e]);
            assert(path_router::writes(x[e], rows[e]));
            assert(x[e].claim == Some(gap));
        } else if routing::decide_rule(Some(gap), None) == Some(kept) {
            let (i, j) = lemma_later_row(plans, more, e);
            assert(more[i].gap == gap);
            assert(serves(more[i].rules, method));
            let k = choose|k: int|
                0 <= k < more[i].rules.len() && router_laws::admits(
                    (#[trigger] more[i].rules[k]).0,
                    method,
                );
            let rules = registration::rules_of(y[e].rules@);
            assert(rules.len() == y[e].rules@.len());
            assert(rules[k] == (registration::methods_of(y[e].rules@[k].0), y[e].rules@[k].1));
            assert(all[e].rules[k].0 == more[i].rules[k].0);
            let id = y[e].rules@[k].1;
            let m = if more[i].rules[k].0 == Methods::Any {
                None
            } else {
                Some(method)
            };
            assert(table::gives(y[e].rules@[k], m, id));
            assert(table::listed(y, key, m, id));
        }
    }
}

/// The larger router decides what the smaller one decides, or for a rule of its own.
proof fn lemma_router_adds<R>(
    a: RuleRouter<R>,
    b: RuleRouter<R>,
    default: R,
    config: GuardConfig,
    plans: Seq<Plan<R>>,
    more: Seq<Plan<R>>,
    method: http::Method,
    kept: RawMatch,
)
    requires
        a.realizes(default, config, plans),
        b.realizes(default, config, plans + more),
        path_router::plans_fault(plans + more, config) is None,
        kept matches RawMatch::Matched { id } ==> id < path_router::all_rules(plans).len(),
        gaps_differ(more, method, kept),
    ensures
        adds(a.guard.router.slots(), b.guard.router.slots(), method, kept),
{
    let x = a.guard.router.slots();
    let y = b.guard.router.slots();
    assert forall|key: Key| #[trigger]
        routing::decide(y(key), method) == routing::decide(x(key), method) || (routing::decide(
            y(key),
            method,
        ) matches Some(outcome) && outcome != kept) by {
        lemma_terminal_adds(a, b, default, config, plans, more, key, method, kept);
    }
}

/// So it does at each terminal.
#[verifier::rlimit(30)]
proof fn lemma_terminal_adds<R>(
    a: RuleRouter<R>,
    b: RuleRouter<R>,
    default: R,
    config: GuardConfig,
    plans: Seq<Plan<R>>,
    more: Seq<Plan<R>>,
    key: Key,
    method: http::Method,
    kept: RawMatch,
)
    requires
        a.realizes(default, config, plans),
        b.realizes(default, config, plans + more),
        path_router::plans_fault(plans + more, config) is None,
        kept matches RawMatch::Matched { id } ==> id < path_router::all_rules(plans).len(),
        gaps_differ(more, method, kept),
    ensures
        routing::decide(b.guard.router.slots()(key), method) == routing::decide(
            a.guard.router.slots()(key),
            method,
        ) || (routing::decide(b.guard.router.slots()(key), method) matches Some(outcome) && outcome
            != kept),
{
    let x = a.guard.router.slots();
    let y = b.guard.router.slots();
    let p = a.entries@;
    let q = b.entries@;
    // Rules of the smaller router stand in the larger one, and what else stands there is new.
    assert forall|m: Option<http::Method>, id: RuleId| #[trigger]
        table_laws::stands(y(key), m, id) == table::listed(q, key, m, id) by {
        table_laws::terminals_hold_what_is_registered(q, y, key, m, id, MethodGap::Deny);
    }
    assert forall|m: Option<http::Method>, id: RuleId| #[trigger]
        table_laws::stands(x(key), m, id) == table::listed(p, key, m, id) by {
        table_laws::terminals_hold_what_is_registered(p, x, key, m, id, MethodGap::Deny);
    }
    assert forall|m: Option<http::Method>, id: RuleId|
        table_laws::stands(x(key), m, id) implies #[trigger] table_laws::stands(y(key), m, id) by {
        lemma_added_rule(a, b, default, config, plans, more, key, m, id);
    }
    assert forall|m: Option<http::Method>, id: RuleId| #[trigger]
        table_laws::stands(y(key), m, id) implies table_laws::stands(x(key), m, id) || id
        >= path_router::all_rules(plans).len() by {
        lemma_added_rule(a, b, default, config, plans, more, key, m, id);
        assert(table_laws::stands(x(key), m, id) == table::listed(p, key, m, id));
    }
    table_laws::terminals_hold_what_is_registered(p, x, key, None, 0, MethodGap::Deny);
    table_laws::terminals_hold_what_is_registered(q, y, key, None, 0, MethodGap::Deny);
    table_laws::lemma_own_rule(x(key).exact, method);
    table_laws::lemma_own_rule(y(key).exact, method);
    let own = Some(method);
    if let Some(id) = routing::exact_rule(x(key).exact, method) {
        assert(table_laws::stands(y(key), own, id));
    }
    if let Some(id) = routing::exact_rule(y(key).exact, method) {
        assert(table_laws::stands(y(key), own, id));
    }
    if let Some(id) = x(key).any {
        assert(table_laws::stands(y(key), None, id));
    }
    if let Some(id) = y(key).any {
        assert(table_laws::stands(y(key), None, id));
    }
    if let Some(gap) = x(key).claim {
        table_laws::terminals_hold_what_is_registered(p, x, key, None, 0, gap);
        table_laws::terminals_hold_what_is_registered(q, y, key, None, 0, gap);
        lemma_added_claim(a, b, default, config, plans, more, key, gap, method, kept);
    } else if let Some(gap) = y(key).claim {
        table_laws::terminals_hold_what_is_registered(p, x, key, None, 0, gap);
        table_laws::terminals_hold_what_is_registered(q, y, key, None, 0, gap);
        lemma_added_claim(a, b, default, config, plans, more, key, gap, method, kept);
        lemma_unclaimed_has_no_rule(a, key);
        if routing::decide_rule(Some(gap), None) == Some(kept) {
            let (m, id) = choose|m: Option<http::Method>, id: RuleId|
                (m is None || m == Some(method)) && #[trigger] table::listed(q, key, m, id);
            assert(table_laws::stands(y(key), m, id) == table::listed(q, key, m, id));
        }
    }
}

/// A terminal that no entry claims has no rule.
proof fn lemma_unclaimed_has_no_rule<R>(a: RuleRouter<R>, key: Key)
    requires
        a.wf(),
        a.guard.router.slots()(key).claim is None,
        forall|e: int| 0 <= e < a.entries@.len() ==> (#[trigger] a.entries@[e]).claim is Some,
    ensures
        a.guard.router.slots()(key).any is None,
        a.guard.router.slots()(key).exact.len() == 0,
{
    let slots = a.guard.router.slots();
    let entries = a.entries@;
    let slot = slots(key);
    if slot.any is Some || slot.exact.len() > 0 {
        let (m, id) = if slot.any is Some {
            (None, slot.any->Some_0)
        } else {
            (Some(slot.exact[0].0), slot.exact[0].1)
        };
        assert(slot.exact.len() > 0 ==> slot.exact.contains(slot.exact[0]));
        assert(table_laws::stands(slot, m, id));
        table_laws::terminals_hold_what_is_registered(entries, slots, key, m, id, MethodGap::Deny);
        let (e, r) = choose|e: int, r: int|
            0 <= e < entries.len() && routing::key_of(entries[e].pattern@) == key && 0 <= r
                < entries[e].rules@.len() && #[trigger] table::gives(entries[e].rules@[r], m, id);
        let gap = entries[e].claim->Some_0;
        table_laws::terminals_hold_what_is_registered(entries, slots, key, m, id, gap);
        assert(entries[e].claim == Some(gap));
    }
}

/// Adding registrations only adds denials, as long as the path keeps what it selects. Where
/// that is the default or a denial of the method, no added registration may lack a rule for
/// the method and say the same of methods without one: it can make a region select that
/// throughout.
pub proof fn added_registrations_only_add_denials<R>(
    a: RuleRouter<R>,
    b: RuleRouter<R>,
    default: R,
    config: GuardConfig,
    plans: Seq<Plan<R>>,
    more: Seq<Plan<R>>,
    path: Seq<char>,
    method: http::Method,
)
    requires
        a.realizes(default, config, plans),
        b.realizes(default, config, plans + more),
        path_router::plans_fault(plans, config) is None,
        path_router::plans_fault(plans + more, config) is None,
        b.guard.raw(vstd::utf8::encode_utf8(path), method) == a.guard.raw(
            vstd::utf8::encode_utf8(path),
            method,
        ),
        gaps_differ(more, method, a.guard.raw(vstd::utf8::encode_utf8(path), method)),
        a.guard.verdict(path, method) != Verdict::Pass,
    ensures
        b.guard.verdict(path, method) != Verdict::Pass,
{
    let bytes = vstd::utf8::encode_utf8(path);
    let kept = a.guard.raw(bytes, method);
    router_laws::matches_are_registered(a, default, config, plans, bytes, method);
    lemma_router_adds(a, b, default, config, plans, more, method, kept);
    if a.guard.builtin_denial(bytes, method) is Some {
        larger_tables_keep_denials(a.guard, b.guard, bytes, method);
    }
}

/// A registration that has no rule for the method adds none for it.
proof fn lemma_unserved<R>(
    a: RuleRouter<R>,
    b: RuleRouter<R>,
    default: R,
    config: GuardConfig,
    plans: Seq<Plan<R>>,
    more: Seq<Plan<R>>,
    key: Key,
    m: Option<http::Method>,
    id: RuleId,
    method: http::Method,
)
    requires
        a.realizes(default, config, plans),
        b.realizes(default, config, plans + more),
        path_router::plans_fault(plans + more, config) is None,
        forall|i: int| 0 <= i < more.len() ==> !serves((#[trigger] more[i]).rules, method),
        m is None || m == Some(method),
    ensures
        table::listed(a.entries@, key, m, id) <==> table::listed(b.entries@, key, m, id),
{
    lemma_added_rule(a, b, default, config, plans, more, key, m, id);
    lemma_appended(plans, more);
    let x = a.entries@;
    let y = b.entries@;
    let rows = path_router::all_rows(plans);
    let all = path_router::all_rows(plans + more);
    if table::listed(y, key, m, id) {
        let (e, r) = choose|e: int, r: int|
            0 <= e < y.len() && routing::key_of(y[e].pattern@) == key && 0 <= r
                < y[e].rules@.len() && #[trigger] table::gives(y[e].rules@[r], m, id);
        if e < x.len() {
            lemma_same_rule(y[e], x[e], rows, all, x, y, e, r, m, id);
            assert(table::gives(x[e].rules@[r], m, id));
        } else {
            let (i, j) = lemma_later_row(plans, more, e);
            assert(path_router::writes(y[e], all[e]));
            let rules = registration::rules_of(y[e].rules@);
            assert(rules[r] == (registration::methods_of(y[e].rules@[r].0), y[e].rules@[r].1));
            assert(rules.len() == more[i].rules.len());
            assert(all[e].rules[r].0 == more[i].rules[r].0);
            assert(router_laws::admits(more[i].rules[r].0, method));
            assert(serves(more[i].rules, method));
        }
    }
}

/// Tables that decide the same select the same.
proof fn lemma_same_decisions(x: Slots, y: Slots, path: Seq<u8>, method: http::Method)
    requires
        forall|key: Key| #[trigger]
            routing::decide(x(key), method) == routing::decide(y(key), method),
    ensures
        routing::identity(x, path, method) == routing::identity(y, path, method),
{
    assert forall|key: Key| #[trigger] routing::contends(x, key, path, method) == routing::contends(
        y,
        key,
        path,
        method,
    ) by {
        assert(routing::decide(x(key), method) == routing::decide(y(key), method));
    }
    assert forall|key: Key| routing::selects(x, key, path, method) == routing::selects(
        y,
        key,
        path,
        method,
    ) by {
        assert(routing::contends(x, key, path, method) == routing::contends(y, key, path, method));
        assert forall|other: Key| #[trigger]
            routing::contends(x, other, path, method) == routing::contends(y, other, path, method) by {}
        if routing::selects(x, key, path, method) {
            assert forall|other: Key| #[trigger]
                routing::contends(y, other, path, method) implies other == key || routing::outranks(
                key,
                other,
            ) by {
                assert(routing::contends(x, other, path, method));
            }
        }
        if routing::selects(y, key, path, method) {
            assert forall|other: Key| #[trigger]
                routing::contends(x, other, path, method) implies other == key || routing::outranks(
                key,
                other,
            ) by {
                assert(routing::contends(y, other, path, method));
            }
        }
    }
    if exists|key: Key| routing::selects(x, key, path, method) {
        let key = choose|key: Key| routing::selects(x, key, path, method);
        routing::lemma_identity(x, key, path, method);
        routing::lemma_identity(y, key, path, method);
    }
}

/// A path that inherits is as good as absent for the methods that it has no rule for: every
/// request by such a method selects what it selects without the registration.
pub proof fn inheriting_registrations_are_passed_over<R>(
    a: RuleRouter<R>,
    b: RuleRouter<R>,
    default: R,
    config: GuardConfig,
    plans: Seq<Plan<R>>,
    more: Seq<Plan<R>>,
    path: Seq<u8>,
    method: http::Method,
)
    requires
        a.realizes(default, config, plans),
        b.realizes(default, config, plans + more),
        path_router::plans_fault(plans, config) is None,
        path_router::plans_fault(plans + more, config) is None,
        forall|i: int|
            0 <= i < more.len() ==> (#[trigger] more[i]).gap == MethodGap::Inherit && !serves(
                more[i].rules,
                method,
            ),
    ensures
        b.guard.raw(path, method) == a.guard.raw(path, method),
{
    let x = a.guard.router.slots();
    let y = b.guard.router.slots();
    let p = a.entries@;
    let q = b.entries@;
    assert forall|key: Key| #[trigger] routing::decide(x(key), method) == routing::decide(
        y(key),
        method,
    ) by {
        assert forall|m: Option<http::Method>, id: RuleId|
            m is None || m == Some(method) implies #[trigger] table_laws::stands(x(key), m, id)
            == table_laws::stands(y(key), m, id) by {
            table_laws::terminals_hold_what_is_registered(p, x, key, m, id, MethodGap::Deny);
            table_laws::terminals_hold_what_is_registered(q, y, key, m, id, MethodGap::Deny);
            lemma_unserved(a, b, default, config, plans, more, key, m, id, method);
        }
        table_laws::terminals_hold_what_is_registered(p, x, key, None, 0, MethodGap::Deny);
        table_laws::terminals_hold_what_is_registered(q, y, key, None, 0, MethodGap::Deny);
        table_laws::lemma_own_rule(x(key).exact, method);
        table_laws::lemma_own_rule(y(key).exact, method);
        let own = Some(method);
        if let Some(id) = routing::exact_rule(x(key).exact, method) {
            assert(table_laws::stands(x(key), own, id));
            assert(table_laws::stands(y(key), own, id));
        }
        if let Some(id) = routing::exact_rule(y(key).exact, method) {
            assert(table_laws::stands(y(key), own, id));
            assert(table_laws::stands(x(key), own, id));
        }
        if let Some(id) = x(key).any {
            assert(table_laws::stands(x(key), None, id));
            assert(table_laws::stands(y(key), None, id));
        }
        if let Some(id) = y(key).any {
            assert(table_laws::stands(y(key), None, id));
            assert(table_laws::stands(x(key), None, id));
        }
        if let Some(gap) = x(key).claim {
            table_laws::terminals_hold_what_is_registered(p, x, key, None, 0, gap);
            table_laws::terminals_hold_what_is_registered(q, y, key, None, 0, gap);
            lemma_kept_claim(a, b, default, config, plans, more, key, gap);
        } else if let Some(gap) = y(key).claim {
            table_laws::terminals_hold_what_is_registered(p, x, key, None, 0, gap);
            table_laws::terminals_hold_what_is_registered(q, y, key, None, 0, gap);
            lemma_kept_claim(a, b, default, config, plans, more, key, gap);
            lemma_unclaimed_has_no_rule(a, key);
        }
    }
    lemma_same_decisions(x, y, path, method);
}

/// Claims stay, and a new one comes from an added registration.
proof fn lemma_kept_claim<R>(
    a: RuleRouter<R>,
    b: RuleRouter<R>,
    default: R,
    config: GuardConfig,
    plans: Seq<Plan<R>>,
    more: Seq<Plan<R>>,
    key: Key,
    gap: MethodGap,
)
    requires
        a.realizes(default, config, plans),
        b.realizes(default, config, plans + more),
    ensures
        table_laws::claimed(a.entries@, key, gap) ==> table_laws::claimed(b.entries@, key, gap),
        table_laws::claimed(b.entries@, key, gap) ==> table_laws::claimed(a.entries@, key, gap)
            || exists|i: int| 0 <= i < more.len() && (#[trigger] more[i]).gap == gap,
{
    lemma_appended(plans, more);
    let x = a.entries@;
    let y = b.entries@;
    let rows = path_router::all_rows(plans);
    let all = path_router::all_rows(plans + more);
    if table_laws::claimed(x, key, gap) {
        let e = choose|e: int|
            0 <= e < x.len() && routing::key_of((#[trigger] x[e]).pattern@) == key && x[e].claim
                == Some(gap);
        assert(rows[e] == all[e]);
        assert(path_router::writes(x[e], rows[e]));
        assert(path_router::writes(y[e], all[e]));
        assert(y[e].claim == Some(gap));
    }
    if table_laws::claimed(y, key, gap) {
        let e = choose|e: int|
            0 <= e < y.len() && routing::key_of((#[trigger] y[e]).pattern@) == key && y[e].claim
                == Some(gap);
        assert(path_router::writes(y[e], all[e]));
        if e < x.len() {
            assert(rows[e] == all[e]);
            assert(path_router::writes(x[e], rows[e]));
            assert(x[e].claim == Some(gap));
        } else {
            let (i, j) = lemma_later_row(plans, more, e);
            assert(more[i].gap == gap);
        }
    }
}

} // verus!
