//! What a registered pattern does to the requests that it covers, and what is no request.

use vstd::prelude::*;

use crate::config::{GuardConfig, ResolveError};
use crate::cover::RuleId;
use crate::diagnostics::RawMatch;
use crate::guard::Verdict;
use crate::path_router;
use crate::path_router::{RuleMatch, RuleRouter};
use crate::pattern;
use crate::pattern_laws;
use crate::pattern_laws::Piece;
use crate::registration;
use crate::registration::{Methods, PathRegistration, Plan, Registration};
use crate::router_laws;
use crate::routing;
use crate::routing::{Key, MethodGap, Slots};
use crate::slot::MethodMatch;
use crate::table;
use crate::table_laws;

verus! {

/// A request path is the asterisk alone, or begins with a slash; it holds no question mark and
/// no number sign. Nothing else is asked of it.
pub proof fn request_paths_are_exact(path: Seq<char>)
    ensures
        path_router::request_path(path) <==> path == seq!['*'] || (path.len() > 0 && path[0] == '/'
            && forall|i: int| 0 <= i < path.len() ==> #[trigger] path[i] != '?' && path[i] != '#'),
{
    let star = seq!['*'];
    if path == star {
        assert(forall|i: int| 0 <= i < path.len() ==> path[i] == '*');
    }
    if path_router::request_path(path) && path != star {
        assert forall|i: int| 0 <= i < path.len() implies #[trigger] path[i] != '?' && path[i]
            != '#' by {
            assert(path.contains(path[i]));
        }
    }
}

/// What is a request path is never refused as none: no check, and no rule, says so.
pub proof fn request_paths_are_not_refused_as_input<R>(
    router: RuleRouter<R>,
    path: Seq<char>,
    method: http::Method,
    raw: RawMatch,
)
    ensures
        router.guard.verdict(path, method) != Verdict::Deny(ResolveError::InvalidPathInput),
        router.answer(raw) != Err::<RuleMatch<'_, R>, ResolveError>(ResolveError::InvalidPathInput),
{
}

/// How many rules the registrations before `i` have.
pub open spec fn rules_before<R>(plans: Seq<Plan<R>>, i: int) -> nat
    decreases i,
{
    if i <= 0 {
        0
    } else {
        rules_before(plans, i - 1) + plans[i - 1].rules.len()
    }
}

pub proof fn lemma_rules_before<R>(plans: Seq<Plan<R>>, i: int)
    requires
        0 <= i <= plans.len(),
    ensures
        rules_before(plans, i) == router_laws::first_id(plans, i),
    decreases i,
{
    if i > 0 {
        lemma_rules_before(plans, i - 1);
        let some = plans.take(i);
        assert(some.drop_last() =~= plans.take(i - 1));
        assert(some.last() == plans[i - 1]);
    } else {
        assert(plans.take(0) =~= Seq::<Plan<R>>::empty());
        assert(path_router::all_rules(plans.take(0)) =~= Seq::<R>::empty());
    }
}

/// The row of a pattern.
pub proof fn lemma_row_of<R>(plans: Seq<Plan<R>>, i: int, j: int) -> (x: int)
    requires
        0 <= i < plans.len(),
        0 <= j < plans[i].patterns.len(),
    ensures
        0 <= x < path_router::all_rows(plans).len(),
        path_router::all_rows(plans)[x] == path_router::plan_rows(
            plans[i],
            router_laws::first_id(plans, i),
        )[j],
    decreases plans.len(),
{
    let less = plans.drop_last();
    assert(less =~= plans.take(plans.len() - 1));
    if i == plans.len() - 1 {
        path_router::all_rows(less).len() + j
    } else {
        let x = lemma_row_of(less, i, j);
        assert(less.take(i) =~= plans.take(i));
        x
    }
}

/// The terminal of a pattern.
pub open spec fn terminal(pat: Seq<char>) -> Key {
    routing::key_of(pattern::lowered(pat)->Ok_0)
}

/// What stands at the terminal of a registered pattern: each rule, for its methods, and what
/// the path means for methods without one.
pub proof fn lemma_terminal<R>(
    router: RuleRouter<R>,
    default: R,
    config: GuardConfig,
    plans: Seq<Plan<R>>,
    i: int,
    j: int,
    k: int,
    method: http::Method,
)
    requires
        router.realizes(default, config, plans),
        path_router::plans_fault(plans, config) is None,
        0 <= i < plans.len(),
        0 <= j < plans[i].patterns.len(),
    ensures
        ({
            let slot = router.guard.router.slots()(terminal(plans[i].patterns[j]));
            &&& slot.claim == Some(plans[i].gap)
            &&& 0 <= k < plans[i].rules.len() ==> {
                let id = (rules_before(plans, i) + k) as RuleId;
                &&& id == rules_before(plans, i) + k
                &&& plans[i].rules[k].0 == Methods::Any ==> slot.any == Some(id)
                &&& (plans[i].rules[k].0 matches Methods::OneOf(ms) && ms.contains(method))
                    ==> routing::exact_rule(slot.exact, method) == Some(id)
            }
        }),
{
    let slots = router.guard.router.slots();
    let entries = router.entries@;
    let rows = path_router::all_rows(plans);
    let x = lemma_row_of(plans, i, j);
    lemma_rules_before(plans, i);
    router_laws::lemma_faultless(plans, config, i);
    assert(path_router::writes(entries[x], rows[x]));
    let key = terminal(plans[i].patterns[j]);
    assert(routing::key_of(entries[x].pattern@) == key);
    let gap = plans[i].gap;
    table_laws::terminals_hold_what_is_registered(entries, slots, key, None, 0, gap);
    assert(entries[x].claim == Some(gap));
    if 0 <= k < plans[i].rules.len() {
        let id = (rules_before(plans, i) + k) as RuleId;
        let rules = registration::rules_of(entries[x].rules@);
        assert(rules.len() == entries[x].rules@.len());
        assert(rules[k] == (
            registration::methods_of(entries[x].rules@[k].0),
            entries[x].rules@[k].1,
        ));
        assert(rows[x].rules[k] == (plans[i].rules[k].0, id));
        if plans[i].rules[k].0 == Methods::Any {
            assert(table::gives(entries[x].rules@[k], None, id));
            assert(table::listed(entries, key, None, id));
            table_laws::terminals_hold_what_is_registered(entries, slots, key, None, id, gap);
        }
        if let Methods::OneOf(ms) = plans[i].rules[k].0 {
            if ms.contains(method) {
                assert(table::gives(entries[x].rules@[k], Some(method), id));
                assert(table::listed(entries, key, Some(method), id));
                table_laws::terminals_hold_what_is_registered(
                    entries,
                    slots,
                    key,
                    Some(method),
                    id,
                    gap,
                );
                table_laws::lemma_own_rule(slots(key).exact, method);
            }
        }
    }
}

/// Whether a rule at the terminal of the pattern lists the method.
pub open spec fn lists<R>(plans: Seq<Plan<R>>, pat: Seq<char>, method: http::Method) -> bool {
    exists|i: int, j: int, k: int| #[trigger] lists_at(plans, pat, method, i, j, k)
}

pub open spec fn lists_at<R>(
    plans: Seq<Plan<R>>,
    pat: Seq<char>,
    method: http::Method,
    i: int,
    j: int,
    k: int,
) -> bool {
    &&& 0 <= i < plans.len()
    &&& 0 <= j < plans[i].patterns.len()
    &&& terminal(plans[i].patterns[j]) == terminal(pat)
    &&& 0 <= k < plans[i].rules.len()
    &&& plans[i].rules[k].0 matches Methods::OneOf(ms) && ms.contains(method)
}

/// Whether a rule at the terminal of the pattern is for all methods.
pub open spec fn lists_all<R>(plans: Seq<Plan<R>>, pat: Seq<char>) -> bool {
    exists|i: int, j: int, k: int| #[trigger] lists_all_at(plans, pat, i, j, k)
}

pub open spec fn lists_all_at<R>(
    plans: Seq<Plan<R>>,
    pat: Seq<char>,
    i: int,
    j: int,
    k: int,
) -> bool {
    &&& 0 <= i < plans.len()
    &&& 0 <= j < plans[i].patterns.len()
    &&& terminal(plans[i].patterns[j]) == terminal(pat)
    &&& 0 <= k < plans[i].rules.len()
    &&& plans[i].rules[k].0 == Methods::Any
}

/// Where no rule lists the method, the terminal holds none for it.
pub proof fn lemma_unlisted<R>(
    router: RuleRouter<R>,
    default: R,
    config: GuardConfig,
    plans: Seq<Plan<R>>,
    pat: Seq<char>,
    method: http::Method,
)
    requires
        router.realizes(default, config, plans),
        path_router::plans_fault(plans, config) is None,
    ensures
        ({
            let slot = router.guard.router.slots()(terminal(pat));
            &&& !lists(plans, pat, method) ==> routing::exact_rule(slot.exact, method) is None
            &&& !lists_all(plans, pat) ==> slot.any is None
        }),
{
    let slots = router.guard.router.slots();
    let entries = router.entries@;
    let key = terminal(pat);
    let slot = slots(key);
    table_laws::terminals_hold_what_is_registered(entries, slots, key, None, 0, MethodGap::Deny);
    table_laws::lemma_own_rule(slot.exact, method);
    if let Some(id) = routing::exact_rule(slot.exact, method) {
        table_laws::terminals_hold_what_is_registered(
            entries,
            slots,
            key,
            Some(method),
            id,
            MethodGap::Deny,
        );
        assert(table_laws::stands(slot, Some(method), id));
        lemma_listed_origin(router, default, config, plans, pat, Some(method), id, method);
    }
    if let Some(id) = slot.any {
        table_laws::terminals_hold_what_is_registered(entries, slots, key, None, id, MethodGap::Deny);
        assert(table_laws::stands(slot, None, id));
        lemma_listed_origin(router, default, config, plans, pat, None, id, method);
    }
}

proof fn lemma_listed_origin<R>(
    router: RuleRouter<R>,
    default: R,
    config: GuardConfig,
    plans: Seq<Plan<R>>,
    pat: Seq<char>,
    listed_for: Option<http::Method>,
    id: RuleId,
    method: http::Method,
)
    requires
        router.realizes(default, config, plans),
        table::listed(router.entries@, terminal(pat), listed_for, id),
        listed_for is None || listed_for == Some(method),
    ensures
        listed_for is None ==> lists_all(plans, pat),
        listed_for is Some ==> lists(plans, pat, method),
{
    let entries = router.entries@;
    let key = terminal(pat);
    let (e, r) = choose|e: int, r: int|
        0 <= e < entries.len() && routing::key_of(entries[e].pattern@) == key && 0 <= r
            < entries[e].rules@.len() && #[trigger] table::gives(entries[e].rules@[r], listed_for, id);
    let rows = path_router::all_rows(plans);
    assert(path_router::writes(entries[e], rows[e]));
    let (i, j) = router_laws::lemma_row_at(plans, e);
    let rules = registration::rules_of(entries[e].rules@);
    assert(rules[r] == (registration::methods_of(entries[e].rules@[r].0), entries[e].rules@[r].1));
    assert(rules.len() == plans[i].rules.len());
    assert(rows[e].rules[r].0 == plans[i].rules[r].0);
    if listed_for is None {
        assert(lists_all_at(plans, pat, i, j, r));
    } else {
        assert(lists_at(plans, pat, method, i, j, r));
    }
}

/// A terminal of literals comes before every other one that covers the same path.
proof fn lemma_literals_first(key: Key, other: Key, s: Seq<u8>)
    requires
        forall|i: int| 0 <= i < key.steps.len() ==> (#[trigger] key.steps[i]) is Literal,
        !(key.tail is CatchAll),
        routing::key_matches(key, s),
        routing::key_matches(other, s),
    ensures
        other == key || routing::outranks(key, other),
    decreases key.steps.len(),
{
    if other.steps.len() > 0 {
        assert(key.steps[0] is Literal);
        if other.steps[0] is Literal {
            assert(other.steps[0] == key.steps[0]);
            if routing::goes_on(s) && routing::rest(s).len() > 0 {
                let a = routing::below(key);
                let b = routing::below(other);
                assert forall|i: int| 0 <= i < a.steps.len() implies (#[trigger] a.steps[i]) is Literal by {
                    assert(a.steps[i] == key.steps[i + 1]);
                }
                lemma_literals_first(a, b, routing::rest(s));
                if a == b {
                    assert(key.steps =~= seq![key.steps[0]] + a.steps);
                    assert(other.steps =~= seq![other.steps[0]] + b.steps);
                }
            } else {
                assert(key.steps =~= other.steps);
            }
        }
    }
}

/// The terminal of a static pattern is made of literals.
proof fn lemma_static_terminal(pat: Seq<char>)
    requires
        pattern_laws::is_static(pat),
    ensures
        forall|i: int| 0 <= i < terminal(pat).steps.len() ==> (#[trigger] terminal(pat).steps[i]) is Literal,
        !(terminal(pat).tail is CatchAll),
{
    let shape = pattern_laws::lemma_static_shape(pat);
    lemma_literal_key(shape.segments, shape.trailing_slash);
}

proof fn lemma_literal_key(segs: Seq<pattern::Seg>, slash: bool)
    requires
        forall|i: int| 0 <= i < segs.len() ==> (#[trigger] segs[i]) is Literal,
    ensures
        ({
            let key = routing::key_from(segs, slash);
            &&& forall|i: int| 0 <= i < key.steps.len() ==> (#[trigger] key.steps[i]) is Literal
            &&& !(key.tail is CatchAll)
        }),
    decreases segs.len(),
{
    if segs.len() > 0 {
        assert(segs[0] is Literal);
        let rest = segs.skip(1);
        assert forall|i: int| 0 <= i < rest.len() implies (#[trigger] rest[i]) is Literal by {
            assert(rest[i] == segs[i + 1]);
        }
        lemma_literal_key(rest, slash);
        let key = routing::key_from(segs, slash);
        let inner = routing::key_from(rest, slash);
        assert forall|i: int| 0 <= i < key.steps.len() implies (#[trigger] key.steps[i]) is Literal by {
            if i > 0 {
                assert(key.steps[i] == inner.steps[i - 1]);
            }
        }
    }
}

/// A static terminal that decides is selected.
proof fn lemma_static_selected(slots: Slots, pat: Seq<char>, method: http::Method)
    requires
        pattern_laws::is_static(pat),
        routing::decide(slots(terminal(pat)), method) is Some,
    ensures
        routing::decide(slots(terminal(pat)), method) == Some(
            routing::identity(slots, vstd::utf8::encode_utf8(pat), method),
        ),
{
    let path = vstd::utf8::encode_utf8(pat);
    let key = terminal(pat);
    pattern_laws::static_patterns_cover_themselves(pat, path);
    lemma_static_terminal(pat);
    assert(routing::contends(slots, key, path, method));
    assert forall|other: Key| #[trigger] routing::contends(slots, other, path, method) implies other
        == key || routing::outranks(key, other) by {
        if path.len() > 1 {
            lemma_literals_first(key, other, path.skip(1));
        }
    }
    assert(routing::selects(slots, key, path, method));
    routing::lemma_identity(slots, key, path, method);
}

/// A request for the path that a static pattern spells gets the rule that is registered for
/// it, whatever else is registered: the one that lists the method, else the one for all
/// methods. Its id is its position among all rules.
pub proof fn static_routes_select_their_rule<R>(
    router: RuleRouter<R>,
    default: R,
    config: GuardConfig,
    plans: Seq<Plan<R>>,
    i: int,
    j: int,
    k: int,
    method: http::Method,
)
    requires
        router.realizes(default, config, plans),
        path_router::plans_fault(plans, config) is None,
        0 <= i < plans.len(),
        0 <= j < plans[i].patterns.len(),
        0 <= k < plans[i].rules.len(),
        pattern_laws::is_static(plans[i].patterns[j]),
        match plans[i].rules[k].0 {
            Methods::OneOf(ms) => ms.contains(method),
            Methods::Any => !lists(plans, plans[i].patterns[j], method),
        },
    ensures
        router.answer(
            router.guard.raw(vstd::utf8::encode_utf8(plans[i].patterns[j]), method),
        ) == Ok::<RuleMatch<'_, R>, ResolveError>(
            RuleMatch::Matched {
                id: (rules_before(plans, i) + k) as u32,
                rule: &plans[i].rules[k].1,
            },
        ),
        rules_before(plans, i) + k < u32::MAX,
{
    let pat = plans[i].patterns[j];
    let slots = router.guard.router.slots();
    lemma_terminal(router, default, config, plans, i, j, k, method);
    lemma_unlisted(router, default, config, plans, pat, method);
    lemma_static_selected(slots, pat, method);
    lemma_rules_before(plans, i);
    router_laws::lemma_rule_at(plans, i, k);
    router_laws::lemma_faultless(plans, config, i);
}

/// Where a static pattern has no rule for the method, the registration says what that means:
/// the default, or a denial.
pub proof fn static_routes_without_a_rule<R>(
    router: RuleRouter<R>,
    default: R,
    config: GuardConfig,
    plans: Seq<Plan<R>>,
    i: int,
    j: int,
    method: http::Method,
)
    requires
        router.realizes(default, config, plans),
        path_router::plans_fault(plans, config) is None,
        0 <= i < plans.len(),
        0 <= j < plans[i].patterns.len(),
        pattern_laws::is_static(plans[i].patterns[j]),
        !lists(plans, plans[i].patterns[j], method),
        !lists_all(plans, plans[i].patterns[j]),
        plans[i].gap != MethodGap::Inherit,
    ensures
        router.answer(
            router.guard.raw(vstd::utf8::encode_utf8(plans[i].patterns[j]), method),
        ) == if plans[i].gap == MethodGap::Default {
            Ok::<RuleMatch<'_, R>, ResolveError>(RuleMatch::Default { rule: &default })
        } else {
            Err::<RuleMatch<'_, R>, ResolveError>(ResolveError::MethodNotConfigured)
        },
{
    let pat = plans[i].patterns[j];
    let slots = router.guard.router.slots();
    lemma_terminal(router, default, config, plans, i, j, 0, method);
    lemma_unlisted(router, default, config, plans, pat, method);
    lemma_static_selected(slots, pat, method);
}

/// A path that no pattern covers gets the default.
pub proof fn uncovered_paths_get_the_default<R>(
    router: RuleRouter<R>,
    default: R,
    config: GuardConfig,
    plans: Seq<Plan<R>>,
    path: Seq<u8>,
    method: http::Method,
)
    requires
        router.realizes(default, config, plans),
        path_router::plans_fault(plans, config) is None,
        forall|i: int, j: int|
            0 <= i < plans.len() && 0 <= j < plans[i].patterns.len() ==> !routing::covers(
                terminal(#[trigger] plans[i].patterns[j]),
                path,
            ),
    ensures
        router.answer(router.guard.raw(path, method)) == Ok::<RuleMatch<'_, R>, ResolveError>(
            RuleMatch::Default { rule: &default },
        ),
{
    router_laws::matches_are_registered(router, default, config, plans, path, method);
    match router.guard.raw(path, method) {
        RawMatch::Matched { id } => {
            let (i, j, k) = choose|i: int, j: int, k: int| #[trigger]
                router_laws::registered(plans, i, j, k, id, path, method) && router.rules@[id as int]
                    == plans[i].rules[k].1;
            assert(!routing::covers(terminal(plans[i].patterns[j]), path));
        },
        RawMatch::MethodDenied => {
            let (i, j) = choose|i: int, j: int| #[trigger] router_laws::refused(plans, i, j, path);
            assert(!routing::covers(terminal(plans[i].patterns[j]), path));
        },
        RawMatch::Default => {},
    }
}

/// Whether the first pieces come before the second ones: up to some segment both have the same
/// kind, and there a text stands against a parameter or the rest, or a parameter against the
/// rest.
pub open spec fn more_specific(a: Seq<Piece>, b: Seq<Piece>) -> bool {
    exists|d: int| #[trigger] differ_at(a, b, d)
}

pub open spec fn differ_at(a: Seq<Piece>, b: Seq<Piece>, d: int) -> bool {
    &&& 0 <= d < a.len()
    &&& d < b.len()
    &&& forall|i: int|
        0 <= i < d ==> ((#[trigger] a[i]) is Text && b[i] is Text) || (a[i] is Param && b[i] is Param)
    &&& (a[d] is Text && !(b[d] is Text)) || (a[d] is Param && b[d] is Rest)
}

proof fn lemma_more_specific(a: Seq<Piece>, b: Seq<Piece>, x: bool, y: bool, d: int)
    requires
        pattern_laws::well_formed(a, x),
        pattern_laws::well_formed(b, y),
        differ_at(a, b, d),
    ensures
        routing::outranks(
            routing::key_from(a.map_values(|piece: Piece| pattern_laws::meaning(piece)), x),
            routing::key_from(b.map_values(|piece: Piece| pattern_laws::meaning(piece)), y),
        ),
    decreases d,
{
    let p = a.map_values(|piece: Piece| pattern_laws::meaning(piece));
    let q = b.map_values(|piece: Piece| pattern_laws::meaning(piece));
    assert(p[0] == pattern_laws::meaning(a[0]) && q[0] == pattern_laws::meaning(b[0]));
    let k = routing::key_from(p, x);
    let l = routing::key_from(q, y);
    if d > 0 {
        assert((a[0] is Text && b[0] is Text) || (a[0] is Param && b[0] is Param));
        let c = a.skip(1);
        let e = b.skip(1);
        assert(pattern_laws::well_formed(c, x) && pattern_laws::well_formed(e, y)) by {
            assert forall|i: int| 0 <= i < c.len() implies pattern_laws::writable(#[trigger] c[i]) by {
                assert(c[i] == a[i + 1]);
            }
            assert forall|i: int| 0 <= i < e.len() implies pattern_laws::writable(#[trigger] e[i]) by {
                assert(e[i] == b[i + 1]);
            }
            assert forall|i: int| 0 <= i < c.len() && (#[trigger] c[i]) is Rest implies i == c.len()
                - 1 && !x by {
                assert(c[i] == a[i + 1]);
            }
            assert forall|i: int| 0 <= i < e.len() && (#[trigger] e[i]) is Rest implies i == e.len()
                - 1 && !y by {
                assert(e[i] == b[i + 1]);
            }
        }
        assert(differ_at(c, e, d - 1)) by {
            assert forall|i: int| 0 <= i < d - 1 implies ((#[trigger] c[i]) is Text && e[i] is Text) || (
            c[i] is Param && e[i] is Param) by {
                assert(c[i] == a[i + 1]);
            }
        }
        lemma_more_specific(c, e, x, y, d - 1);
        assert(p.skip(1) =~= c.map_values(|piece: Piece| pattern_laws::meaning(piece)));
        assert(q.skip(1) =~= e.map_values(|piece: Piece| pattern_laws::meaning(piece)));
        assert(routing::below(k).steps =~= routing::key_from(p.skip(1), x).steps);
        assert(routing::below(l).steps =~= routing::key_from(q.skip(1), y).steps);
    }
}

/// The more specific pattern comes first: where two patterns cover a path and both decide about
/// the method, what is selected does not come from the less specific one.
pub proof fn more_specific_patterns_come_first(
    slots: Slots,
    a: Seq<Piece>,
    b: Seq<Piece>,
    x: bool,
    y: bool,
    path: Seq<u8>,
    method: http::Method,
)
    requires
        pattern_laws::well_formed(a, x),
        pattern_laws::well_formed(b, y),
        more_specific(a, b),
        path.len() > 0 && path[0] == '/' as u8,
        pattern_laws::fits(a, x, path.skip(1)),
        pattern_laws::fits(b, y, path.skip(1)),
        routing::decide(slots(terminal(pattern_laws::pattern_text(pattern_laws::texts(a), x))), method) is Some,
    ensures
        !routing::selects(
            slots,
            terminal(pattern_laws::pattern_text(pattern_laws::texts(b), y)),
            path,
            method,
        ),
        exists|key: Key| #[trigger]
            routing::selects(slots, key, path, method) && routing::decide(slots(key), method) == Some(
                routing::identity(slots, path, method),
            ) && key != terminal(pattern_laws::pattern_text(pattern_laws::texts(b), y)),
{
    let d = choose|d: int| #[trigger] differ_at(a, b, d);
    lemma_more_specific(a, b, x, y, d);
    pattern_laws::patterns_say_what_is_written(a, x);
    pattern_laws::patterns_say_what_is_written(b, y);
    pattern_laws::patterns_cover_what_they_fit(a, x, path);
    pattern_laws::patterns_cover_what_they_fit(b, y, path);
    let k = terminal(pattern_laws::pattern_text(pattern_laws::texts(a), x));
    let l = terminal(pattern_laws::pattern_text(pattern_laws::texts(b), y));
    assert(routing::contends(slots, k, path, method));
    routing::lemma_outranks_asymmetric(k, l);
    assert(!routing::outranks(l, k));
    if path.len() == 1 {
        assert(path.skip(1).len() == 0);
        pattern_laws::lemma_nothing_fits(a, x);
    }
    routing::lemma_find_identity(slots, path, method);
}

/// An explanation names a denial exactly where the request is denied, and the one that it is
/// denied with.
pub proof fn explanations_name_the_denial<R>(
    router: RuleRouter<R>,
    denial: Option<ResolveError>,
    path: Seq<char>,
    method: http::Method,
)
    requires
        router.denies(denial, path, method),
    ensures
        denial is None <==> router.guard.verdict(path, method) == Verdict::Pass && router.answer(
            router.guard.raw(vstd::utf8::encode_utf8(path), method),
        ) is Ok,
        denial matches Some(error) ==> match router.guard.verdict(path, method) {
            Verdict::Deny(reason) => error == reason,
            Verdict::Probe(label) => error matches ResolveError::Probe(name) && name@ == label,
            Verdict::Pass => router.answer(
                router.guard.raw(vstd::utf8::encode_utf8(path), method),
            ) == Err::<RuleMatch<'_, R>, ResolveError>(error),
        },
{
}

/// What a registration holds is what it says. At its paths, a method without a rule gets the
/// default.
pub proof fn registrations_say_what_they_hold<R>(registration: Registration<R>)
    ensures
        registration@.patterns.len() == registration.patterns@.len(),
        forall|j: int|
            0 <= j < registration@.patterns.len() ==> #[trigger] registration@.patterns[j]
                == registration.patterns@[j]@,
        registration@.opaque == registration.opaque,
        registration@.rules.len() == 1,
        registration@.rules[0].1 == registration.rule,
        registration.method is Any <==> registration@.rules[0].0 is Any,
        (registration.method matches MethodMatch::OneOf(ms) ==> registration@.rules[0].0
            == Methods::OneOf(ms@)),
        routing::decide_rule(Some(registration@.gap), None) == Some(RawMatch::Default),
{
}

/// What a registration of a path holds is what it says. At its paths, a method without a rule
/// is denied, or the lookup goes on where the registration inherits.
pub proof fn path_registrations_say_what_they_hold<R>(registration: PathRegistration<R>)
    ensures
        registration@.patterns.len() == registration.patterns@.len(),
        forall|j: int|
            0 <= j < registration@.patterns.len() ==> #[trigger] registration@.patterns[j]
                == registration.patterns@[j]@,
        registration@.opaque == registration.opaque,
        registration@.rules.len() == registration.rules@.len(),
        forall|k: int|
            0 <= k < registration@.rules.len() ==> {
                &&& (#[trigger] registration@.rules[k]).1 == registration.rules@[k].1
                &&& registration.rules@[k].0 is Any <==> registration@.rules[k].0 is Any
                &&& (registration.rules@[k].0 matches MethodMatch::OneOf(ms)
                    ==> registration@.rules[k].0 == Methods::OneOf(ms@))
            },
        routing::decide_rule(Some(registration@.gap), None) == if registration.inherit {
            None::<RawMatch>
        } else {
            Some(RawMatch::MethodDenied)
        },
{
}

/// The short forms register what they are given: one rule for all methods, or none, where
/// methods without a rule are denied.
pub proof fn short_forms_say_what_they_are_given<R>(
    patterns: Seq<Seq<char>>,
    opaque: bool,
    rule: R,
)
    ensures
        path_router::single_plan(patterns, opaque, rule).patterns == patterns,
        path_router::single_plan(patterns, opaque, rule).opaque == opaque,
        path_router::single_plan(patterns, opaque, rule).rules == seq![(Methods::Any, rule)],
        path_router::single_plan(patterns, opaque, rule).gap == MethodGap::Default,
        path_router::path_plan::<R>(patterns, opaque).patterns == patterns,
        path_router::path_plan::<R>(patterns, opaque).opaque == opaque,
        path_router::path_plan::<R>(patterns, opaque).rules.len() == 0,
        path_router::path_plan::<R>(patterns, opaque).gap == MethodGap::Deny,
{
}

} // verus!
