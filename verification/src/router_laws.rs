//! What holds of every router that registrations build.

use vstd::prelude::*;

use crate::agreement_laws;
use crate::config::{CaseSensitivity, GuardConfig, GuardMode, ResolveError};
use crate::cover::RuleId;
use crate::diagnostics::RawMatch;
use crate::guard;
use crate::guard::Verdict;
use crate::guard_laws;
use crate::path_router;
use crate::path_router::{Row, RuleRouter, RuleRouterError};
use crate::pattern;
use crate::registration;
use crate::registration::{Methods, Plan};
use crate::rewriting;
use crate::rewriting::Move;
use crate::routing;
use crate::routing::{Key, MethodGap, Slot};
use crate::slot;
use crate::slot::{MethodMatch, PathEntry};
use crate::table;
use crate::table::BuildError;
use crate::table_laws;

verus! {

/// The id of the first rule of the registration `i`.
pub open spec fn first_id<R>(plans: Seq<Plan<R>>, i: int) -> nat {
    path_router::all_rules(plans.take(i)).len()
}

/// Whether the rule is for the method.
pub open spec fn admits(methods: Methods, method: http::Method) -> bool {
    match methods {
        Methods::Any => true,
        Methods::OneOf(ms) => ms.contains(method),
    }
}

/// Whether the pattern covers the path.
pub open spec fn pattern_covers(pattern: Seq<char>, path: Seq<u8>) -> bool {
    routing::covers(routing::key_of(pattern::lowered(pattern)->Ok_0), path)
}

/// Whether the rule `k` of the registration `i` has the id, and is for a path that the
/// registration's pattern `j` covers and for the method.
pub open spec fn registered<R>(
    plans: Seq<Plan<R>>,
    i: int,
    j: int,
    k: int,
    id: RuleId,
    path: Seq<u8>,
    method: http::Method,
) -> bool {
    &&& 0 <= i < plans.len()
    &&& 0 <= j < plans[i].patterns.len()
    &&& 0 <= k < plans[i].rules.len()
    &&& id == first_id(plans, i) + k
    &&& pattern_covers(plans[i].patterns[j], path)
    &&& admits(plans[i].rules[k].0, method)
}

/// Whether a pattern of a registration that denies other methods covers the path.
pub open spec fn refused<R>(plans: Seq<Plan<R>>, i: int, j: int, path: Seq<u8>) -> bool {
    &&& 0 <= i < plans.len()
    &&& 0 <= j < plans[i].patterns.len()
    &&& plans[i].gap == MethodGap::Deny
    &&& pattern_covers(plans[i].patterns[j], path)
}

/// Ids go up with the registrations.
pub proof fn lemma_ids_ascend<R>(plans: Seq<Plan<R>>, i: int, j: int)
    requires
        0 <= i < j <= plans.len(),
    ensures
        first_id(plans, i) + plans[i].rules.len() <= first_id(plans, j),
    decreases j,
{
    let less = plans.take(j);
    assert(less.drop_last() =~= plans.take(j - 1));
    assert(less.last() == plans[j - 1]);
    if i < j - 1 {
        lemma_ids_ascend(plans, i, j - 1);
    }
}

/// The rule at an id.
pub proof fn lemma_rule_at<R>(plans: Seq<Plan<R>>, i: int, k: int)
    requires
        0 <= i < plans.len(),
        0 <= k < plans[i].rules.len(),
    ensures
        first_id(plans, i) + k < path_router::all_rules(plans).len(),
        path_router::all_rules(plans)[first_id(plans, i) + k] == plans[i].rules[k].1,
    decreases plans.len(),
{
    let less = plans.drop_last();
    assert(less =~= plans.take(plans.len() - 1));
    if i < plans.len() - 1 {
        assert(less.take(i) =~= plans.take(i));
        lemma_rule_at(less, i, k);
    }
}

/// Where a row comes from.
pub proof fn lemma_row_at<R>(plans: Seq<Plan<R>>, x: int) -> (at: (int, int))
    requires
        0 <= x < path_router::all_rows(plans).len(),
    ensures
        0 <= at.0 < plans.len(),
        0 <= at.1 < plans[at.0].patterns.len(),
        path_router::all_rows(plans)[x] == path_router::plan_rows(
            plans[at.0],
            first_id(plans, at.0),
        )[at.1],
    decreases plans.len(),
{
    let less = plans.drop_last();
    assert(less =~= plans.take(plans.len() - 1));
    let rows = path_router::all_rows(less);
    if x < rows.len() {
        let at = lemma_row_at(less, x);
        assert(less.take(at.0) =~= plans.take(at.0));
        at
    } else {
        (plans.len() - 1, x - rows.len())
    }
}

/// No registration of a faultless list is at fault.
pub proof fn lemma_faultless<R>(plans: Seq<Plan<R>>, config: GuardConfig, i: int)
    requires
        path_router::plans_fault(plans, config) is None,
        0 <= i < plans.len(),
    ensures
        path_router::plan_fault(plans[i], first_id(plans, i), config) is None,
    decreases plans.len(),
{
    let less = plans.drop_last();
    assert(less =~= plans.take(plans.len() - 1));
    if i < plans.len() - 1 {
        lemma_faultless(less, config, i);
        assert(less.take(i) =~= plans.take(i));
    }
}

/// A rule that an entry lists for the method is one of its registration's.
proof fn lemma_listed_is_registered<R>(
    router: RuleRouter<R>,
    default: R,
    config: GuardConfig,
    plans: Seq<Plan<R>>,
    key: Key,
    listed_for: Option<http::Method>,
    id: RuleId,
    path: Seq<u8>,
    method: http::Method,
) -> (at: (int, int, int))
    requires
        router.realizes(default, config, plans),
        path_router::plans_fault(plans, config) is None,
        table::listed(router.entries@, key, listed_for, id),
        listed_for is None || listed_for == Some(method),
        routing::covers(key, path),
    ensures
        registered(plans, at.0, at.1, at.2, id, path, method),
{
    let entries = router.entries@;
    let (e, r) = choose|e: int, r: int|
        0 <= e < entries.len() && routing::key_of(entries[e].pattern@) == key && 0 <= r
            < entries[e].rules@.len() && #[trigger] table::gives(entries[e].rules@[r], listed_for, id);
    let rows = path_router::all_rows(plans);
    assert(path_router::writes(entries[e], rows[e]));
    let (i, j) = lemma_row_at(plans, e);
    lemma_faultless(plans, config, i);
    let rules = registration::rules_of(entries[e].rules@);
    assert(rules[r] == (registration::methods_of(entries[e].rules@[r].0), entries[e].rules@[r].1));
    assert(rules.len() == plans[i].rules.len());
    assert(rows[e].rules[r] == (plans[i].rules[r].0, (first_id(plans, i) + r) as u32));
    (i, j, r)
}

/// A request is matched to a rule that is registered for it. The id is the position of the
/// rule among all rules registered, some pattern of its registration covers the path, and
/// the rule is for the method. A refusal comes from a registration that covers the path and
/// denies other methods. No request finds a rule missing.
pub proof fn matches_are_registered<R>(
    router: RuleRouter<R>,
    default: R,
    config: GuardConfig,
    plans: Seq<Plan<R>>,
    path: Seq<u8>,
    method: http::Method,
)
    requires
        router.realizes(default, config, plans),
        path_router::plans_fault(plans, config) is None,
    ensures
        match router.guard.raw(path, method) {
            RawMatch::Matched { id } => {
                &&& id < router.rules@.len()
                &&& exists|i: int, j: int, k: int| #[trigger]
                    registered(plans, i, j, k, id, path, method) && router.rules@[id as int]
                        == plans[i].rules[k].1
            },
            RawMatch::MethodDenied => exists|i: int, j: int| #[trigger] refused(plans, i, j, path),
            RawMatch::Default => true,
        },
        !(router.answer(router.guard.raw(path, method)) matches Err(ResolveError::InvalidRuleId)),
{
    let slots = router.guard.router.slots();
    let entries = router.entries@;
    let raw = router.guard.raw(path, method);
    if exists|key: Key| routing::selects(slots, key, path, method) {
        let key = choose|key: Key| routing::selects(slots, key, path, method);
        assert(routing::contends(slots, key, path, method));
        table::lemma_table_stems(entries, entries.len(), key);
        table::lemma_decision_stems(slots(key), entries, key, method);
        if let RawMatch::Matched { id } = raw {
            let (i, j, k) = if table::listed(entries, key, None, id) {
                lemma_listed_is_registered(
                    router,
                    default,
                    config,
                    plans,
                    key,
                    None,
                    id,
                    path,
                    method,
                )
            } else {
                lemma_listed_is_registered(
                    router,
                    default,
                    config,
                    plans,
                    key,
                    Some(method),
                    id,
                    path,
                    method,
                )
            };
            lemma_rule_at(plans, i, k);
            assert(registered(plans, i, j, k, id, path, method));
        } else if raw == RawMatch::MethodDenied {
            table_laws::terminals_hold_what_is_registered(
                entries,
                slots,
                key,
                None,
                0,
                MethodGap::Deny,
            );
            let e = choose|e: int|
                0 <= e < entries.len() && routing::key_of((#[trigger] entries[e]).pattern@) == key
                    && entries[e].claim == Some(MethodGap::Deny);
            assert(path_router::writes(entries[e], path_router::all_rows(plans)[e]));
            let (i, j) = lemma_row_at(plans, e);
            assert(refused(plans, i, j, path));
        }
    }
}

/// Each rule has an id of its own: one id belongs to one rule of one registration, whatever
/// the values of the rules. The patterns of a registration share its ids.
pub proof fn identities_are_distinct<R>(
    plans: Seq<Plan<R>>,
    i: int,
    k: int,
    other: int,
    l: int,
)
    requires
        0 <= i < plans.len(),
        0 <= k < plans[i].rules.len(),
        0 <= other < plans.len(),
        0 <= l < plans[other].rules.len(),
        first_id(plans, i) + k == first_id(plans, other) + l,
    ensures
        i == other,
        k == l,
{
    if i < other {
        lemma_ids_ascend(plans, i, other);
    } else if other < i {
        lemma_ids_ascend(plans, other, i);
    }
}

/// Whether the entries put the same at the same terminals.
spec fn same_claims(a: Seq<PathEntry>, b: Seq<PathEntry>) -> bool {
    &&& a.len() == b.len()
    &&& forall|i: int|
        #![trigger a[i]]
        #![trigger b[i]]
        0 <= i < a.len() ==> {
            &&& a[i].pattern@ == b[i].pattern@
            &&& a[i].claim == b[i].claim
            &&& registration::rules_of(a[i].rules@) == registration::rules_of(b[i].rules@)
        }
}

/// Rules go into a slot by their methods and ids.
proof fn lemma_same_rules(
    slot: Slot,
    a: Seq<(MethodMatch, RuleId)>,
    b: Seq<(MethodMatch, RuleId)>,
    n: nat,
)
    requires
        registration::rules_of(a) == registration::rules_of(b),
        n <= a.len(),
    ensures
        slot::slot_with_rules(slot, a, n) == slot::slot_with_rules(slot, b, n),
    decreases n,
{
    assert(registration::rules_of(a).len() == a.len());
    assert(registration::rules_of(b).len() == b.len());
    if n > 0 {
        lemma_same_rules(slot, a, b, (n - 1) as nat);
        assert(registration::rules_of(a)[n - 1] == (
            registration::methods_of(a[n - 1].0),
            a[n - 1].1,
        ));
        assert(registration::rules_of(b)[n - 1] == (
            registration::methods_of(b[n - 1].0),
            b[n - 1].1,
        ));
    }
}

proof fn lemma_same_table(a: Seq<PathEntry>, b: Seq<PathEntry>, n: nat, key: Key)
    requires
        same_claims(a, b),
        n <= a.len(),
    ensures
        table::table_after(a, n, key) == table::table_after(b, n, key),
    decreases n,
{
    if n > 0 {
        lemma_same_table(a, b, (n - 1) as nat, key);
        lemma_same_entry(a, b, n - 1, table::table_after(a, (n - 1) as nat, key));
    }
}

proof fn lemma_same_entry(a: Seq<PathEntry>, b: Seq<PathEntry>, i: int, slot: Slot)
    requires
        same_claims(a, b),
        0 <= i < a.len(),
    ensures
        slot::slot_with_entry(slot, a[i]) == slot::slot_with_entry(slot, b[i]),
{
    assert(a[i].claim == b[i].claim);
    assert(registration::rules_of(a[i].rules@).len() == registration::rules_of(b[i].rules@).len());
    if let Some(base) = slot::slot_with_claim(slot, a[i].claim) {
        lemma_same_rules(base, a[i].rules@, b[i].rules@, a[i].rules@.len());
    }
}

proof fn lemma_same_conflicts(a: Seq<PathEntry>, b: Seq<PathEntry>, i: int)
    requires
        same_claims(a, b),
        0 <= i < a.len(),
    ensures
        table::conflicts(a, i) == table::conflicts(b, i),
{
    let key = routing::key_of(a[i].pattern@);
    lemma_same_table(a, b, i as nat, key);
    lemma_same_entry(a, b, i, table::table_after(a, i as nat, key));
}

/// Entries that say what the same rows say.
proof fn lemma_same_rows(a: Seq<PathEntry>, b: Seq<PathEntry>, rows: Seq<Row>)
    requires
        path_router::write_all(a, rows),
        path_router::write_all(b, rows),
    ensures
        same_claims(a, b),
        forall|i: int| 0 <= i < a.len() ==> (#[trigger] a[i]).opaque == b[i].opaque,
{
    assert forall|i: int|
        #![trigger a[i]]
        #![trigger b[i]]
        0 <= i < a.len() implies {
        &&& a[i].pattern@ == b[i].pattern@
        &&& a[i].claim == b[i].claim
        &&& registration::rules_of(a[i].rules@) == registration::rules_of(b[i].rules@)
    } by {
        assert(path_router::writes(a[i], rows[i]));
        assert(path_router::writes(b[i], rows[i]));
    }
    assert forall|i: int| 0 <= i < a.len() implies (#[trigger] a[i]).opaque == b[i].opaque by {
        assert(path_router::writes(a[i], rows[i]));
        assert(path_router::writes(b[i], rows[i]));
    }
}

/// Routers whose entries say the same have the same terminals.
proof fn lemma_same_slots<R>(a: RuleRouter<R>, b: RuleRouter<R>)
    requires
        a.wf(),
        b.wf(),
        same_claims(a.entries@, b.entries@),
    ensures
        a.guard.router.slots() == b.guard.router.slots(),
{
    let x = a.guard.router.slots();
    let y = b.guard.router.slots();
    assert forall|key: Key| #[trigger] x(key) == y(key) by {
        lemma_same_table(a.entries@, b.entries@, a.entries@.len(), key);
    }
    assert(x =~= y);
}

/// Guards over the same terminals, of the same configuration, say the same.
proof fn lemma_same_verdicts<R>(
    a: RuleRouter<R>,
    b: RuleRouter<R>,
    config: GuardConfig,
    path: Seq<char>,
    method: http::Method,
)
    requires
        a.wf(),
        b.wf(),
        same_claims(a.entries@, b.entries@),
        a.guard.configured(config),
        b.guard.configured(config),
    ensures
        a.guard.raw(vstd::utf8::encode_utf8(path), method) == b.guard.raw(
            vstd::utf8::encode_utf8(path),
            method,
        ),
        a.guard.verdict(path, method) == b.guard.verdict(path, method),
{
    lemma_same_slots(a, b);
}

/// Entries that say the same are intruded upon at the same places.
proof fn lemma_same_intrusion(a: Seq<PathEntry>, b: Seq<PathEntry>, i: int)
    requires
        same_claims(a, b),
        0 <= i < a.len(),
        a[i].opaque == b[i].opaque,
        table::intruded(a, i),
    ensures
        table::intruded(b, i),
{
    assert(a[i].pattern@ == b[i].pattern@);
    let prefix = table::tail_prefix(a[i].pattern@.segments)->Some_0;
    let j = choose|j: int|
        0 <= j < a.len() && table::overrides(prefix, (#[trigger] a[j]).pattern@.segments, false);
    assert(a[j].pattern@ == b[j].pattern@);
    assert(table::overrides(prefix, b[j].pattern@.segments, false));
}

/// Entries that say the same fail the same way.
proof fn lemma_same_failure(
    a: Seq<PathEntry>,
    x: BuildError,
    b: Seq<PathEntry>,
    y: BuildError,
    rows: Seq<Row>,
)
    requires
        path_router::write_all(a, rows),
        path_router::write_all(b, rows),
        table::builds(a, Err(x)),
        table::builds(b, Err(y)),
    ensures
        path_router::build_fault(x, rows) == path_router::build_fault(y, rows),
{
    lemma_same_rows(a, b, rows);
    assert forall|i: int| 0 <= i < a.len() implies #[trigger] table::conflicts(a, i)
        == table::conflicts(b, i) by {
        lemma_same_conflicts(a, b, i);
    }
    assert forall|i: int| 0 <= i < a.len() implies #[trigger] table::intruded(a, i)
        == table::intruded(b, i) by {
        assert(a[i].opaque == b[i].opaque);
        if table::intruded(a, i) {
            lemma_same_intrusion(a, b, i);
        }
        if table::intruded(b, i) {
            lemma_same_intrusion(b, a, i);
        }
    }
    match (x, y) {
        (BuildError::Conflict { index: i }, BuildError::Conflict { index: j }) => {
            if i < j {
                assert(!table::conflicts(b, i as int));
            }
            if j < i {
                assert(!table::conflicts(a, j as int));
            }
        },
        (BuildError::Conflict { index: i }, _) => {
            assert(!table::conflicts(b, i as int));
        },
        (_, BuildError::Conflict { index: j }) => {
            assert(table::conflicts(a, j as int) == table::conflicts(b, j as int));
        },
        (BuildError::OpaqueTailHasSibling { at: s }, BuildError::OpaqueTailHasSibling { at: t }) => {
            let i = choose|i: int| #[trigger]
                table::first_intruded(a, i) && s@ == table::prefix_text(
                    table::tail_prefix(a[i].pattern@.segments)->Some_0,
                );
            let j = choose|j: int| #[trigger]
                table::first_intruded(b, j) && t@ == table::prefix_text(
                    table::tail_prefix(b[j].pattern@.segments)->Some_0,
                );
            if i < j {
                assert(!table::intruded(b, i));
                assert(table::intruded(a, i) == table::intruded(b, i));
            }
            if j < i {
                assert(!table::intruded(a, j));
            }
            assert(a[i].pattern@ == b[i].pattern@);
        },
    }
}

/// Whether two results of building a router are the same to their users: routers that
/// resolve every request alike, or errors that say the same.
pub open spec fn alike<R>(
    a: Result<RuleRouter<R>, RuleRouterError>,
    b: Result<RuleRouter<R>, RuleRouterError>,
) -> bool {
    match (a, b) {
        (Ok(x), Ok(y)) => {
            &&& x.default == y.default
            &&& x.rules@ == y.rules@
            &&& forall|path: Seq<char>, method: http::Method| #[trigger]
                x.guard.verdict(path, method) == y.guard.verdict(path, method)
            &&& forall|path: Seq<char>, method: http::Method| #[trigger]
                x.guard.raw(vstd::utf8::encode_utf8(path), method) == y.guard.raw(
                    vstd::utf8::encode_utf8(path),
                    method,
                )
        },
        (Err(x), Err(y)) => x@ == y@,
        _ => false,
    }
}

/// Registrations determine the result: it makes no difference whether they come in one
/// list, or one by one through a builder.
pub proof fn registrations_determine_the_router<R>(
    a: Result<RuleRouter<R>, RuleRouterError>,
    b: Result<RuleRouter<R>, RuleRouterError>,
    default: R,
    config: GuardConfig,
    plans: Seq<Plan<R>>,
)
    requires
        path_router::constructs(a, default, config, plans),
        path_router::constructs(b, default, config, plans),
    ensures
        alike(a, b),
{
    let rows = path_router::all_rows(plans);
    if path_router::plans_fault(plans, config) is None {
        match (a, b) {
            (Ok(x), Ok(y)) => {
                lemma_same_rows(x.entries@, y.entries@, rows);
                assert forall|path: Seq<char>, method: http::Method| #[trigger]
                    x.guard.verdict(path, method) == y.guard.verdict(path, method) by {
                    lemma_same_verdicts(x, y, config, path, method);
                }
                assert forall|path: Seq<char>, method: http::Method| #[trigger]
                    x.guard.raw(vstd::utf8::encode_utf8(path), method) == y.guard.raw(
                        vstd::utf8::encode_utf8(path),
                        method,
                    ) by {
                    lemma_same_verdicts(x, y, config, path, method);
                }
            },
            (Err(x), Err(y)) => {
                let (p, f) = choose|entries: Seq<PathEntry>, failure: BuildError| #[trigger]
                    table::builds(entries, Err(failure)) && path_router::write_all(entries, rows)
                        && x@ == path_router::build_fault(failure, rows);
                let (q, g) = choose|entries: Seq<PathEntry>, failure: BuildError| #[trigger]
                    table::builds(entries, Err(failure)) && path_router::write_all(entries, rows)
                        && y@ == path_router::build_fault(failure, rows);
                lemma_same_failure(p, f, q, g, rows);
            },
            (Ok(x), Err(_)) => {
                lemma_not_both(x, b, default, config, plans);
            },
            (Err(_), Ok(y)) => {
                lemma_not_both(y, a, default, config, plans);
            },
        }
    }
}

/// Where the registrations build a router, they do not fail to.
proof fn lemma_not_both<R>(
    router: RuleRouter<R>,
    other: Result<RuleRouter<R>, RuleRouterError>,
    default: R,
    config: GuardConfig,
    plans: Seq<Plan<R>>,
)
    requires
        path_router::plans_fault(plans, config) is None,
        router.realizes(default, config, plans),
        path_router::constructs(other, default, config, plans),
    ensures
        other is Ok,
{
    let rows = path_router::all_rows(plans);
    if let Err(e) = other {
        let (a, failure) = choose|entries: Seq<PathEntry>, failure: BuildError| #[trigger]
            table::builds(entries, Err(failure)) && path_router::write_all(entries, rows) && e@
                == path_router::build_fault(failure, rows);
        let b = router.entries@;
        lemma_same_rows(a, b, rows);
        match failure {
            BuildError::Conflict { index } => {
                lemma_same_conflicts(a, b, index as int);
                assert(!table::conflicts(b, index as int));
            },
            BuildError::OpaqueTailHasSibling { at } => {
                let i = choose|i: int| #[trigger]
                    table::first_intruded(a, i) && at@ == table::prefix_text(
                        table::tail_prefix(a[i].pattern@.segments)->Some_0,
                    );
                assert(a[i].opaque == b[i].opaque);
                lemma_same_intrusion(a, b, i);
                assert(!table::intruded(b, i));
            },
        }
    }
}

/// Whether the registrations differ in nothing but which tails are declared exclusive.
pub open spec fn same_but_exclusivity<R>(a: Seq<Plan<R>>, b: Seq<Plan<R>>) -> bool {
    &&& a.len() == b.len()
    &&& forall|i: int|
        #![trigger a[i]]
        #![trigger b[i]]
        0 <= i < a.len() ==> a[i] == (Plan { opaque: a[i].opaque, ..b[i] })
}

proof fn lemma_same_rows_but_exclusivity<R>(a: Seq<Plan<R>>, b: Seq<Plan<R>>)
    requires
        same_but_exclusivity(a, b),
    ensures
        path_router::all_rules(a) == path_router::all_rules(b),
        path_router::all_rows(a).len() == path_router::all_rows(b).len(),
        forall|x: int|
            #![trigger path_router::all_rows(a)[x]]
            #![trigger path_router::all_rows(b)[x]]
            0 <= x < path_router::all_rows(a).len() ==> path_router::all_rows(a)[x] == (Row {
                opaque: path_router::all_rows(a)[x].opaque,
                ..path_router::all_rows(b)[x]
            }),
    decreases a.len(),
{
    if a.len() > 0 {
        let n = a.len() - 1;
        let c = a.drop_last();
        let d = b.drop_last();
        assert forall|i: int|
            #![trigger c[i]]
            #![trigger d[i]]
            0 <= i < c.len() implies c[i] == (Plan { opaque: c[i].opaque, ..d[i] }) by {
            assert(a[i] == (Plan { opaque: a[i].opaque, ..b[i] }));
        }
        lemma_same_rows_but_exclusivity(c, d);
        assert(a[n] == (Plan { opaque: a[n].opaque, ..b[n] }));
        let base = path_router::all_rules(c).len();
        let p = path_router::plan_rows(a[n], base);
        let q = path_router::plan_rows(b[n], base);
        assert forall|x: int|
            #![trigger path_router::all_rows(a)[x]]
            #![trigger path_router::all_rows(b)[x]]
            0 <= x < path_router::all_rows(a).len() implies path_router::all_rows(a)[x] == (Row {
            opaque: path_router::all_rows(a)[x].opaque,
            ..path_router::all_rows(b)[x]
        }) by {
            let k = path_router::all_rows(c).len();
            if x < k {
                assert(path_router::all_rows(a)[x] == path_router::all_rows(c)[x]);
                assert(path_router::all_rows(b)[x] == path_router::all_rows(d)[x]);
            } else {
                assert(path_router::all_rows(a)[x] == p[x - k]);
                assert(path_router::all_rows(b)[x] == q[x - k]);
            }
        }
    }
}

/// Declaring a tail exclusive is a demand on the other registrations and nothing more: where
/// it is met, every request is resolved as without the declaration.
pub proof fn exclusivity_changes_no_match<R>(
    a: RuleRouter<R>,
    b: RuleRouter<R>,
    default: R,
    config: GuardConfig,
    plans: Seq<Plan<R>>,
    others: Seq<Plan<R>>,
    path: Seq<char>,
    method: http::Method,
)
    requires
        a.realizes(default, config, plans),
        b.realizes(default, config, others),
        same_but_exclusivity(plans, others),
    ensures
        a.rules@ == b.rules@,
        a.guard.raw(vstd::utf8::encode_utf8(path), method) == b.guard.raw(
            vstd::utf8::encode_utf8(path),
            method,
        ),
        a.guard.verdict(path, method) == b.guard.verdict(path, method),
{
    lemma_same_rows_but_exclusivity(plans, others);
    let p = path_router::all_rows(plans);
    let q = path_router::all_rows(others);
    assert forall|i: int|
        #![trigger a.entries@[i]]
        #![trigger b.entries@[i]]
        0 <= i < a.entries@.len() implies {
        &&& a.entries@[i].pattern@ == b.entries@[i].pattern@
        &&& a.entries@[i].claim == b.entries@[i].claim
        &&& registration::rules_of(a.entries@[i].rules@) == registration::rules_of(
            b.entries@[i].rules@,
        )
    } by {
        assert(path_router::writes(a.entries@[i], p[i]));
        assert(path_router::writes(b.entries@[i], q[i]));
        assert(p[i] == (Row { opaque: p[i].opaque, ..q[i] }));
    }
    lemma_same_verdicts(a, b, config, path, method);
}

/// A request path encodes to one that begins with a slash, or stands for the server.
pub proof fn lemma_request_bytes(path: Seq<char>)
    requires
        path_router::request_path(path),
    ensures
        vstd::utf8::encode_utf8(path).len() > 0,
        vstd::utf8::encode_utf8(path)[0] == 0x2F || vstd::utf8::encode_utf8(path) == seq![0x2Au8],
{
    let first = path[0] as u32;
    let rest = path.drop_first();
    assert(0x2Fu32 & 0x7F == 0x2F) by (bit_vector);
    assert(0x2Au32 & 0x7F == 0x2A) by (bit_vector);
    assert(vstd::utf8::encode_utf8(path) == vstd::utf8::encode_scalar(first)
        + vstd::utf8::encode_utf8(rest));
    if path == seq!['*'] {
        assert(rest =~= Seq::<char>::empty());
        assert(vstd::utf8::encode_utf8(rest) =~= Seq::<u8>::empty());
        assert(vstd::utf8::encode_utf8(path) =~= seq![0x2Au8]);
    }
}

/// Stricter settings only add denials, for a router. A request that a router resolves is
/// resolved to the same rule by every router of the same registrations that declares less,
/// unless the length of the path sets the modes apart. Declaring more turns no denial into
/// acceptance.
pub proof fn stricter_routers_only_add_denials<R>(
    a: RuleRouter<R>,
    b: RuleRouter<R>,
    default: R,
    config: GuardConfig,
    stricter: GuardConfig,
    plans: Seq<Plan<R>>,
    path: Seq<char>,
    method: http::Method,
)
    requires
        a.realizes(default, config, plans),
        b.realizes(default, stricter, plans),
        guard_laws::declares_more(config, stricter),
        path_router::request_path(path),
        vstd::utf8::encode_utf8(path).len() < usize::MAX,
        !guard_laws::set_apart_by_length(a.guard, b.guard, vstd::utf8::encode_utf8(path)),
        b.guard.verdict(path, method) == Verdict::Pass,
    ensures
        a.guard.verdict(path, method) == Verdict::Pass,
        a.answer(a.guard.raw(vstd::utf8::encode_utf8(path), method)) == b.answer(
            b.guard.raw(vstd::utf8::encode_utf8(path), method),
        ),
{
    lemma_request_bytes(path);
    lemma_same_rows(a.entries@, b.entries@, path_router::all_rows(plans));
    lemma_same_slots(a, b);
    guard_laws::lemma_declared_strictness(a.guard, b.guard, config, stricter);
    if a.guard.verdict(path, method) != Verdict::Pass {
        guard_laws::stricter_settings_only_add_denials(a.guard, b.guard, stricter, path, method);
    }
}

/// The guarantee, for a router. Where it resolves a request in an active mode, every path
/// that a backend of the declared kind can make of it resolves to the same rule.
pub proof fn resolved_rules_hold_downstream<R>(
    router: RuleRouter<R>,
    default: R,
    config: GuardConfig,
    plans: Seq<Plan<R>>,
    path: Seq<char>,
    method: http::Method,
    moves: Seq<Move>,
)
    requires
        router.realizes(default, config, plans),
        config.mode != GuardMode::Disabled,
        path_router::request_path(path),
        vstd::utf8::encode_utf8(path).len() < usize::MAX,
        router.guard.verdict(path, method) == Verdict::Pass,
        rewriting::after(
            agreement_laws::declared(router.guard),
            agreement_laws::received(router.guard, vstd::utf8::encode_utf8(path)),
            moves,
        ) is Some,
    ensures
        router.answer(
            router.guard.raw(
                guard::routed(
                    rewriting::after(
                        agreement_laws::declared(router.guard),
                        agreement_laws::received(router.guard, vstd::utf8::encode_utf8(path)),
                        moves,
                    )->Some_0.bytes,
                    router.guard.case_insensitive,
                ),
                method,
            ),
        ) == router.answer(router.guard.raw(vstd::utf8::encode_utf8(path), method)),
{
    lemma_request_bytes(path);
    agreement_laws::accepted_requests_keep_their_rule(
        router.guard,
        config,
        vstd::utf8::encode_utf8(path),
        method,
        moves,
    );
}

/// The guarantee, by what is declared. Where a router resolves a request in an active mode, every
/// path that a backend can make of it by the declared behaviors, in any number of moves and in
/// any order, selects the same, and so does that path with its letters lowercased where case
/// is folded.
pub proof fn declared_backends_reach_the_same_rule<R>(
    router: RuleRouter<R>,
    default: R,
    config: GuardConfig,
    plans: Seq<Plan<R>>,
    path: Seq<char>,
    method: http::Method,
    moves: Seq<Move>,
)
    requires
        router.realizes(default, config, plans),
        config.mode != GuardMode::Disabled,
        path_router::request_path(path),
        vstd::utf8::encode_utf8(path).len() < usize::MAX,
        router.guard.verdict(path, method) == Verdict::Pass,
        rewriting::after(
            rewriting::declared(config),
            rewriting::State {
                bytes: vstd::utf8::encode_utf8(path),
                passes: rewriting::passes(config),
            },
            moves,
        ) is Some,
    ensures
        ({
            let reached = rewriting::after(
                rewriting::declared(config),
                rewriting::State {
                    bytes: vstd::utf8::encode_utf8(path),
                    passes: rewriting::passes(config),
                },
                moves,
            )->Some_0.bytes;
            router.answer(
                router.guard.raw(
                    if config.case_sensitivity == CaseSensitivity::Insensitive {
                        rewriting::lowercase(reached)
                    } else {
                        reached
                    },
                    method,
                ),
            ) == router.answer(router.guard.raw(vstd::utf8::encode_utf8(path), method))
        }),
{
    let bytes = vstd::utf8::encode_utf8(path);
    assert(agreement_laws::declared(router.guard) == rewriting::declared(config));
    assert(agreement_laws::received(router.guard, bytes) == (rewriting::State {
        bytes,
        passes: rewriting::passes(config),
    }));
    let reached = rewriting::after(
        rewriting::declared(config),
        rewriting::State { bytes, passes: rewriting::passes(config) },
        moves,
    )->Some_0.bytes;
    rewriting::lemma_lowercase(reached);
    resolved_rules_hold_downstream(router, default, config, plans, path, method, moves);
}

} // verus!
