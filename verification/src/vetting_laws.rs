//! Which registrations are refused, and what is said of them.

use vstd::prelude::*;

use crate::anchor;
use crate::canonical_laws;
use crate::config::{CaseSensitivity, GuardConfig, GuardMode};
use crate::cover::RuleId;
use crate::exclusive_laws;
use crate::path_router;
use crate::path_router::{Fault, RuleRouter, RuleRouterError};
use crate::pattern;
use crate::pattern::Seg;
use crate::pattern_laws;
use crate::pattern_laws::Piece;
use crate::registration;
use crate::registration::{Methods, Plan};
use crate::route_laws;
use crate::router_laws;
use crate::routing;
use crate::slot::{MethodMatch, PathEntry};
use crate::table;
use crate::table::BuildError;
use crate::table_laws;
use crate::verdict_laws;

verus! {

/// Whether a text of the pattern shows a structural form under the configuration.
pub open spec fn shows_form(pieces: Seq<Piece>, config: GuardConfig) -> bool {
    exists|i: int|
        0 <= i < pieces.len() && (#[trigger] pieces[i] matches Piece::Text(text)
            && !verdict_laws::formless(vstd::utf8::encode_utf8(text), config))
}

/// Whether a text of the pattern holds an uppercase ASCII letter.
pub open spec fn capitalized(pieces: Seq<Piece>) -> bool {
    exists|i: int|
        0 <= i < pieces.len() && (#[trigger] pieces[i] matches Piece::Text(text)
            && !canonical_laws::uncapitalized(vstd::utf8::encode_utf8(text)))
}

/// A disabled guard vets no pattern. Else a pattern is refused exactly where one of its texts
/// shows a structural form, or holds an uppercase letter where case is folded; the form is
/// named first. Names of parameters have no part in it.
pub proof fn patterns_are_vetted(pieces: Seq<Piece>, slash: bool, config: GuardConfig)
    requires
        pattern_laws::well_formed(pieces, slash),
        forall|i: int|
            0 <= i < pieces.len() ==> (#[trigger] pieces[i] matches Piece::Text(text)
                ==> vstd::utf8::encode_utf8(text).len() < usize::MAX),
    ensures
        ({
            let pat = pattern_laws::pattern_text(pattern_laws::texts(pieces), slash);
            path_router::pattern_fault(pat, config) == if config.mode == GuardMode::Disabled {
                None::<Fault>
            } else if shows_form(pieces, config) {
                Some(Fault::NonCanonical(pat))
            } else if config.case_sensitivity == CaseSensitivity::Insensitive && capitalized(
                pieces,
            ) {
                Some(Fault::NonCanonicalCase(pat))
            } else {
                None
            }
        }),
{
    pattern_laws::patterns_say_what_is_written(pieces, slash);
    let pat = pattern_laws::pattern_text(pattern_laws::texts(pieces), slash);
    let shape = pattern::lowered(pat)->Ok_0;
    assert forall|i: int| 0 <= i < pieces.len() implies #[trigger] shape.segments[i]
        == pattern_laws::meaning(pieces[i]) by {}
    assert forall|i: int| 0 <= i < pieces.len() implies (#[trigger] pieces[i] matches Piece::Text(
        text,
    ) ==> {
        &&& path_router::structured(text, config) == !verdict_laws::formless(
            vstd::utf8::encode_utf8(text),
            config,
        )
        &&& anchor::has_upper(vstd::utf8::encode_utf8(text))
            == !canonical_laws::uncapitalized(vstd::utf8::encode_utf8(text))
    }) by {
        if let Piece::Text(text) = pieces[i] {
            canonical_laws::survey_is_exact(
                vstd::utf8::encode_utf8(text),
                path_router::literal_lens(config),
            );
        }
    }
    if shows_form(pieces, config) {
        let i = choose|i: int|
            0 <= i < pieces.len() && (#[trigger] pieces[i] matches Piece::Text(text)
                && !verdict_laws::formless(vstd::utf8::encode_utf8(text), config));
        assert(shape.segments[i] is Literal);
    }
    if capitalized(pieces) {
        let i = choose|i: int|
            0 <= i < pieces.len() && (#[trigger] pieces[i] matches Piece::Text(text)
                && !canonical_laws::uncapitalized(vstd::utf8::encode_utf8(text)));
        assert(shape.segments[i] is Literal);
    }
    if path_router::has_structured(shape, config) {
        let i = choose|i: int|
            0 <= i < shape.segments.len() && (#[trigger] shape.segments[i] matches Seg::Literal(
                text,
            ) && path_router::structured(text, config));
        assert(pieces[i] is Text);
    }
    if path_router::has_uppercase(shape) {
        let i = choose|i: int|
            0 <= i < shape.segments.len() && (#[trigger] shape.segments[i] matches Seg::Literal(
                text,
            ) && anchor::has_upper(vstd::utf8::encode_utf8(text)));
        assert(pieces[i] is Text);
    }
}

/// Whether a rule of the registration is for no method at all.
pub open spec fn pointless<R>(plan: Plan<R>) -> bool {
    exists|k: int|
        0 <= k < plan.rules.len() && ((#[trigger] plan.rules[k]).0 matches Methods::OneOf(ms)
            && ms.len() == 0)
}

/// Whether the registration `i` has a pattern, no rule for no method, no rule behind the last
/// id but the default's, and no pattern that is refused.
pub open spec fn sound<R>(plans: Seq<Plan<R>>, i: int, config: GuardConfig) -> bool {
    &&& plans[i].patterns.len() > 0
    &&& !pointless(plans[i])
    &&& route_laws::rules_before(plans, i) + plans[i].rules.len() <= u32::MAX
    &&& forall|j: int|
        0 <= j < plans[i].patterns.len() ==> path_router::pattern_fault(
            #[trigger] plans[i].patterns[j],
            config,
        ) is None
}

/// Whether this is what is wrong with the registration `i`.
pub open spec fn faulty<R>(plans: Seq<Plan<R>>, i: int, config: GuardConfig, fault: Fault) -> bool {
    if plans[i].patterns.len() == 0 {
        fault == Fault::EmptyPatternSet
    } else if pointless(plans[i]) {
        fault == Fault::EmptyMethodSet(plans[i].patterns[0])
    } else if route_laws::rules_before(plans, i) + plans[i].rules.len() > u32::MAX {
        fault == Fault::TooManyRegistrations
    } else {
        exists|j: int|
            0 <= j < plans[i].patterns.len() && path_router::pattern_fault(
                #[trigger] plans[i].patterns[j],
                config,
            ) == Some(fault) && (forall|h: int|
                0 <= h < j ==> path_router::pattern_fault(
                    #[trigger] plans[i].patterns[h],
                    config,
                ) is None)
    }
}

proof fn lemma_patterns_fault(patterns: Seq<Seq<char>>, config: GuardConfig)
    ensures
        match path_router::patterns_fault(patterns, config) {
            None => forall|j: int|
                0 <= j < patterns.len() ==> path_router::pattern_fault(
                    #[trigger] patterns[j],
                    config,
                ) is None,
            Some(fault) => exists|j: int|
                0 <= j < patterns.len() && path_router::pattern_fault(
                    #[trigger] patterns[j],
                    config,
                ) == Some(fault) && (forall|h: int|
                    0 <= h < j ==> path_router::pattern_fault(
                        #[trigger] patterns[h],
                        config,
                    ) is None),
        },
    decreases patterns.len(),
{
    if patterns.len() > 0 {
        let less = patterns.drop_last();
        lemma_patterns_fault(less, config);
        assert(forall|j: int| 0 <= j < less.len() ==> less[j] == #[trigger] patterns[j]);
        match path_router::patterns_fault(less, config) {
            Some(fault) => {
                let j = choose|j: int|
                    0 <= j < less.len() && path_router::pattern_fault(#[trigger] less[j], config)
                        == Some(fault) && (forall|h: int|
                        0 <= h < j ==> path_router::pattern_fault(
                            #[trigger] less[h],
                            config,
                        ) is None);
                assert(patterns[j] == less[j]);
                assert forall|h: int| 0 <= h < j implies path_router::pattern_fault(
                    #[trigger] patterns[h],
                    config,
                ) is None by {
                    assert(less[h] == patterns[h]);
                }
            },
            None => {
                assert(patterns.last() == patterns[patterns.len() - 1]);
                assert forall|h: int| 0 <= h < less.len() implies path_router::pattern_fault(
                    #[trigger] patterns[h],
                    config,
                ) is None by {
                    assert(less[h] == patterns[h]);
                }
            },
        }
    }
}

proof fn lemma_plan_fault<R>(plans: Seq<Plan<R>>, i: int, config: GuardConfig)
    requires
        0 <= i < plans.len(),
    ensures
        match path_router::plan_fault(plans[i], route_laws::rules_before(plans, i), config) {
            None => sound(plans, i, config),
            Some(fault) => !sound(plans, i, config) && faulty(plans, i, config, fault),
        },
{
    let plan = plans[i];
    lemma_patterns_fault(plan.patterns, config);
    if pointless(plan) {
        let k = choose|k: int|
            0 <= k < plan.rules.len() && ((#[trigger] plan.rules[k]).0 matches Methods::OneOf(ms)
                && ms.len() == 0);
        assert(plan.rules[k].0->OneOf_0 =~= Seq::<http::Method>::empty());
        assert(path_router::has_empty_set(plan.rules));
    }
    if path_router::has_empty_set(plan.rules) {
        let k = choose|k: int|
            0 <= k < plan.rules.len() && (#[trigger] plan.rules[k]).0 == Methods::OneOf(
                Seq::<http::Method>::empty(),
            );
        assert(pointless(plan));
    }
}

/// Registrations are taken exactly where each of them is sound. Else the first one that is not
/// decides, and of what is wrong with it what is looked at first: that it has no pattern, that
/// a rule is for no method, that there are too many rules, and its patterns in order.
pub proof fn first_faulty_registration_decides<R>(plans: Seq<Plan<R>>, config: GuardConfig)
    ensures
        match path_router::plans_fault(plans, config) {
            None => forall|i: int| 0 <= i < plans.len() ==> #[trigger] sound(plans, i, config),
            Some(fault) => exists|i: int|
                0 <= i < plans.len() && !sound(plans, i, config) && #[trigger] faulty(
                    plans,
                    i,
                    config,
                    fault,
                ) && (forall|h: int| 0 <= h < i ==> #[trigger] sound(plans, h, config)),
        },
    decreases plans.len(),
{
    if plans.len() > 0 {
        let less = plans.drop_last();
        let last = plans.len() - 1;
        assert(less =~= plans.take(last));
        first_faulty_registration_decides(less, config);
        assert forall|i: int| 0 <= i < last implies #[trigger] sound(plans, i, config) == sound(
            less,
            i,
            config,
        ) && (forall|fault: Fault| #[trigger]
            faulty(plans, i, config, fault) == faulty(less, i, config, fault)) by {
            lemma_before(plans, i);
            assert(less[i] == plans[i]);
        }
        lemma_before(plans, last);
        route_laws::lemma_rules_before(plans, last);
        lemma_plan_fault(plans, last, config);
        match path_router::plans_fault(less, config) {
            Some(fault) => {
                let i = choose|i: int|
                    0 <= i < less.len() && !sound(less, i, config) && #[trigger] faulty(
                        less,
                        i,
                        config,
                        fault,
                    ) && (forall|h: int| 0 <= h < i ==> #[trigger] sound(less, h, config));
                assert(sound(plans, i, config) == sound(less, i, config));
                assert(faulty(plans, i, config, fault));
                assert forall|h: int| 0 <= h < i implies #[trigger] sound(plans, h, config) by {
                    assert(sound(less, h, config));
                }
            },
            None => {
                assert forall|h: int| 0 <= h < last implies #[trigger] sound(plans, h, config) by {
                    assert(sound(less, h, config));
                }
            },
        }
    }
}

/// What stands before a registration does not depend on what follows it.
proof fn lemma_before<R>(plans: Seq<Plan<R>>, i: int)
    requires
        plans.len() > 0,
        0 <= i < plans.len(),
    ensures
        route_laws::rules_before(plans, i) == route_laws::rules_before(plans.drop_last(), i),
    decreases i,
{
    if i > 0 {
        lemma_before(plans, i - 1);
        assert(plans.drop_last()[i - 1] == plans[i - 1]);
    }
}

/// Whether two rules are for one method, or both for all.
pub open spec fn meet(a: Methods, b: Methods) -> bool {
    match (a, b) {
        (Methods::Any, Methods::Any) => true,
        (Methods::OneOf(ms), Methods::OneOf(ns)) => exists|m: http::Method| #[trigger]
            ms.contains(m) && ns.contains(m),
        _ => false,
    }
}

/// Whether a registration has two rules for one method, or lists a method twice.
pub open spec fn contradicts<R>(plan: Plan<R>) -> bool {
    ||| exists|k: int|
        0 <= k < plan.rules.len() && ((#[trigger] plan.rules[k]).0 matches Methods::OneOf(ms)
            && !ms.no_duplicates())
    ||| exists|k: int, l: int|
        0 <= k < l < plan.rules.len() && meet(
            (#[trigger] plan.rules[k]).0,
            (#[trigger] plan.rules[l]).0,
        )
}

/// Whether two registrations for one path cannot stand together: they differ in what the path
/// means for methods without a rule, or have rules for one method.
pub open spec fn collide<R>(a: Plan<R>, b: Plan<R>) -> bool {
    ||| a.gap != b.gap
    ||| exists|k: int, l: int|
        0 <= k < a.rules.len() && 0 <= l < b.rules.len() && meet(
            (#[trigger] a.rules[k]).0,
            (#[trigger] b.rules[l]).0,
        )
}

/// Whether the pattern `j` of the registration `i` is there.
pub open spec fn has_pattern<R>(plans: Seq<Plan<R>>, i: int, j: int) -> bool {
    0 <= i < plans.len() && 0 <= j < plans[i].patterns.len()
}

/// Whether two patterns of registrations that cannot stand together are for one path, or a
/// registration contradicts itself.
pub open spec fn overbooked<R>(plans: Seq<Plan<R>>) -> bool {
    ||| exists|i: int| 0 <= i < plans.len() && #[trigger] contradicts(plans[i])
    ||| exists|i: int, j: int, g: int, h: int|
        (i, j) != (g, h) && #[trigger] has_pattern(plans, i, j) && #[trigger] has_pattern(
            plans,
            g,
            h,
        ) && route_laws::terminal(plans[i].patterns[j]) == route_laws::terminal(
            plans[g].patterns[h],
        ) && collide(plans[i], plans[g])
}

/// Whether a path that is covered by both patterns goes to `pat` rather than to `tail`.
pub open spec fn takes(pat: Seq<char>, tail: Seq<char>) -> bool {
    exists|path: Seq<u8>| #[trigger]
        router_laws::pattern_covers(tail, path) && router_laws::pattern_covers(pat, path)
            && routing::outranks(route_laws::terminal(pat), route_laws::terminal(tail))
}

/// Whether a pattern takes a path out of the tail of an exclusive registration.
pub open spec fn encroached<R>(plans: Seq<Plan<R>>) -> bool {
    exists|i: int, j: int, g: int, h: int|
        #[trigger] has_pattern(plans, i, j) && #[trigger] has_pattern(plans, g, h)
            && plans[i].opaque && pattern::lowered(plans[i].patterns[j])->Ok_0.segments.last()
            is CatchAll && pattern::lowered(plans[i].patterns[j])->Ok_0.segments.len() > 0
            && takes(plans[g].patterns[h], plans[i].patterns[j])
}

/// How many patterns the registrations before `i` have.
pub open spec fn patterns_before<R>(plans: Seq<Plan<R>>, i: int) -> nat
    decreases i,
{
    if i <= 0 {
        0
    } else {
        patterns_before(plans, i - 1) + plans[i - 1].patterns.len()
    }
}

/// The patterns stand in order in the rows.
proof fn lemma_place<R>(plans: Seq<Plan<R>>, i: int, j: int)
    requires
        has_pattern(plans, i, j),
    ensures
        patterns_before(plans, i) + j < path_router::all_rows(plans).len(),
        path_router::all_rows(plans)[patterns_before(plans, i) + j] == path_router::plan_rows(
            plans[i],
            router_laws::first_id(plans, i),
        )[j],
    decreases plans.len(),
{
    let less = plans.drop_last();
    assert(less =~= plans.take(plans.len() - 1));
    lemma_rows_len(less);
    lemma_before_patterns(plans, i);
    if i < plans.len() - 1 {
        assert(less[i] == plans[i]);
        lemma_place(less, i, j);
        assert(less.take(i) =~= plans.take(i));
    }
}

proof fn lemma_before_patterns<R>(plans: Seq<Plan<R>>, i: int)
    requires
        0 <= i < plans.len(),
    ensures
        patterns_before(plans, i) == patterns_before(plans.drop_last(), i),
    decreases i,
{
    if i > 0 {
        lemma_before_patterns(plans, i - 1);
        assert(plans.drop_last()[i - 1] == plans[i - 1]);
    }
}

proof fn lemma_rows_len<R>(plans: Seq<Plan<R>>)
    ensures
        path_router::all_rows(plans).len() == patterns_before(plans, plans.len() as int),
    decreases plans.len(),
{
    if plans.len() > 0 {
        lemma_rows_len(plans.drop_last());
        lemma_before_patterns(plans, plans.len() - 1);
    }
}

/// Where a row comes from.
proof fn lemma_origin<R>(plans: Seq<Plan<R>>, x: int) -> (at: (int, int))
    requires
        0 <= x < path_router::all_rows(plans).len(),
    ensures
        has_pattern(plans, at.0, at.1),
        x == patterns_before(plans, at.0) + at.1,
    decreases plans.len(),
{
    let less = plans.drop_last();
    lemma_rows_len(less);
    lemma_before_patterns(plans, plans.len() - 1);
    if x < path_router::all_rows(less).len() {
        let at = lemma_origin(less, x);
        lemma_before_patterns(plans, at.0);
        assert(less[at.0] == plans[at.0]);
        at
    } else {
        (plans.len() - 1, x - path_router::all_rows(less).len())
    }
}

proof fn lemma_patterns_ascend<R>(plans: Seq<Plan<R>>, i: int, g: int)
    requires
        0 <= i < g <= plans.len(),
    ensures
        patterns_before(plans, i) + plans[i].patterns.len() <= patterns_before(plans, g),
    decreases g,
{
    if i < g - 1 {
        lemma_patterns_ascend(plans, i, g - 1);
    }
}

/// Different patterns stand in different rows.
proof fn lemma_places_differ<R>(plans: Seq<Plan<R>>, i: int, j: int, g: int, h: int)
    requires
        has_pattern(plans, i, j),
        has_pattern(plans, g, h),
        (i, j) != (g, h),
    ensures
        patterns_before(plans, i) + j != patterns_before(plans, g) + h,
{
    if i < g {
        lemma_patterns_ascend(plans, i, g);
    } else if g < i {
        lemma_patterns_ascend(plans, g, i);
    }
}

/// What an entry says of a registration's pattern.
spec fn speaks_for<R>(entry: PathEntry, plans: Seq<Plan<R>>, i: int, j: int) -> bool {
    &&& entry.pattern@ == pattern::lowered(plans[i].patterns[j])->Ok_0
    &&& entry.opaque == plans[i].opaque
    &&& entry.claim == Some(plans[i].gap)
    &&& entry.rules@.len() == plans[i].rules.len()
    &&& forall|k: int|
        0 <= k < entry.rules@.len() ==> registration::methods_of((#[trigger] entry.rules@[k]).0)
            == plans[i].rules[k].0
}

proof fn lemma_entry_at<R>(entries: Seq<PathEntry>, plans: Seq<Plan<R>>, i: int, j: int)
    requires
        path_router::write_all(entries, path_router::all_rows(plans)),
        has_pattern(plans, i, j),
    ensures
        patterns_before(plans, i) + j < entries.len(),
        speaks_for(entries[patterns_before(plans, i) + j], plans, i, j),
{
    lemma_place(plans, i, j);
    let entry = entries[patterns_before(plans, i) + j];
    let row = path_router::all_rows(plans)[patterns_before(plans, i) + j];
    assert(path_router::writes(entry, row));
    let rules = registration::rules_of(entry.rules@);
    assert(rules.len() == entry.rules@.len());
    assert(row.rules == path_router::numbered(plans[i].rules, router_laws::first_id(plans, i)));
    assert forall|k: int| 0 <= k < entry.rules@.len() implies registration::methods_of(
        (#[trigger] entry.rules@[k]).0,
    ) == plans[i].rules[k].0 by {
        assert(rules[k].0 == registration::methods_of(entry.rules@[k].0));
        assert(rules[k] == row.rules[k]);
    }
}

proof fn lemma_meet(a: (MethodMatch, RuleId), b: (MethodMatch, RuleId))
    ensures
        table_laws::contests(a, b) <==> meet(
            registration::methods_of(a.0),
            registration::methods_of(b.0),
        ),
{
    if table_laws::contests(a, b) {
        let method = choose|method: Option<http::Method>| #[trigger]
            table::gives(a, method, a.1) && table::gives(b, method, b.1);
        if let Some(m) = method {
            assert(registration::methods_of(a.0)->OneOf_0.contains(m));
        }
    }
    if meet(registration::methods_of(a.0), registration::methods_of(b.0)) {
        if a.0 is Any {
            assert(table::gives(a, None, a.1) && table::gives(b, None, b.1));
        } else {
            let m = choose|m: http::Method| #[trigger]
                registration::methods_of(a.0)->OneOf_0.contains(m) && registration::methods_of(
                    b.0,
                )->OneOf_0.contains(m);
            assert(table::gives(a, Some(m), a.1) && table::gives(b, Some(m), b.1));
        }
    }
}

proof fn lemma_contradicts<R>(entry: PathEntry, plans: Seq<Plan<R>>, i: int, j: int)
    requires
        speaks_for(entry, plans, i, j),
    ensures
        table_laws::repeats(entry) <==> contradicts(plans[i]),
{
    let plan = plans[i];
    assert forall|k: int, l: int|
        0 <= k < entry.rules@.len() && 0 <= l < entry.rules@.len() implies #[trigger]
        table_laws::contests(entry.rules@[k], entry.rules@[l]) == meet(
            plan.rules[k].0,
            plan.rules[l].0,
        ) by {
        lemma_meet(entry.rules@[k], entry.rules@[l]);
    }
    if contradicts(plan) {
        if exists|k: int|
            0 <= k < plan.rules.len() && ((#[trigger] plan.rules[k]).0 matches Methods::OneOf(ms)
                && !ms.no_duplicates()) {
            let k = choose|k: int|
                0 <= k < plan.rules.len() && ((#[trigger] plan.rules[k]).0 matches Methods::OneOf(
                    ms,
                ) && !ms.no_duplicates());
            assert(entry.rules@[k].0 is OneOf);
        } else {
            let (k, l) = choose|k: int, l: int|
                0 <= k < l < plan.rules.len() && meet(
                    (#[trigger] plan.rules[k]).0,
                    (#[trigger] plan.rules[l]).0,
                );
            assert(table_laws::contests(entry.rules@[k], entry.rules@[l]));
        }
    }
}

proof fn lemma_collide<R>(
    a: PathEntry,
    b: PathEntry,
    plans: Seq<Plan<R>>,
    i: int,
    j: int,
    g: int,
    h: int,
)
    requires
        speaks_for(a, plans, i, j),
        speaks_for(b, plans, g, h),
    ensures
        table_laws::clash(a, b) <==> collide(plans[i], plans[g]),
{
    assert forall|k: int, l: int|
        0 <= k < a.rules@.len() && 0 <= l < b.rules@.len() implies #[trigger] table_laws::contests(
        a.rules@[k],
        b.rules@[l],
    ) == meet(plans[i].rules[k].0, plans[g].rules[l].0) by {
        lemma_meet(a.rules@[k], b.rules@[l]);
    }
    if collide(plans[i], plans[g]) && plans[i].gap == plans[g].gap {
        let (k, l) = choose|k: int, l: int|
            0 <= k < plans[i].rules.len() && 0 <= l < plans[g].rules.len() && meet(
                (#[trigger] plans[i].rules[k]).0,
                (#[trigger] plans[g].rules[l]).0,
            );
        assert(table_laws::contests(a.rules@[k], b.rules@[l]));
    }
}

proof fn lemma_meet_symmetric<R>(a: Plan<R>, b: Plan<R>)
    requires
        collide(a, b),
    ensures
        collide(b, a),
{
    if a.gap == b.gap {
        let (k, l) = choose|k: int, l: int|
            0 <= k < a.rules.len() && 0 <= l < b.rules.len() && meet(
                (#[trigger] a.rules[k]).0,
                (#[trigger] b.rules[l]).0,
            );
        if a.rules[k].0 is OneOf {
            let m = choose|m: http::Method| #[trigger]
                a.rules[k].0->OneOf_0.contains(m) && b.rules[l].0->OneOf_0.contains(m);
            assert(b.rules[l].0->OneOf_0.contains(m));
        }
        assert(meet(b.rules[l].0, a.rules[k].0));
    }
}

/// The entries are double-booked where the registrations are.
#[verifier::rlimit(30)]
proof fn lemma_overbooked<R>(entries: Seq<PathEntry>, plans: Seq<Plan<R>>)
    requires
        path_router::write_all(entries, path_router::all_rows(plans)),
        forall|i: int| 0 <= i < plans.len() ==> (#[trigger] plans[i]).patterns.len() > 0,
    ensures
        table_laws::double_booked(entries) <==> overbooked(plans),
{
    if overbooked(plans) {
        if exists|i: int| 0 <= i < plans.len() && #[trigger] contradicts(plans[i]) {
            let i = choose|i: int| 0 <= i < plans.len() && #[trigger] contradicts(plans[i]);
            lemma_entry_at(entries, plans, i, 0);
            lemma_contradicts(entries[patterns_before(plans, i) as int], plans, i, 0);
        } else {
            let (i, j, g, h) = choose|i: int, j: int, g: int, h: int|
                (i, j) != (g, h) && #[trigger] has_pattern(plans, i, j) && #[trigger] has_pattern(
                    plans,
                    g,
                    h,
                ) && route_laws::terminal(plans[i].patterns[j]) == route_laws::terminal(
                    plans[g].patterns[h],
                ) && collide(plans[i], plans[g]);
            lemma_entry_at(entries, plans, i, j);
            lemma_entry_at(entries, plans, g, h);
            lemma_places_differ(plans, i, j, g, h);
            lemma_meet_symmetric(plans[i], plans[g]);
            let x = patterns_before(plans, i) + j;
            let y = patterns_before(plans, g) + h;
            lemma_collide(entries[x], entries[y], plans, i, j, g, h);
            lemma_collide(entries[y], entries[x], plans, g, h, i, j);
            if x < y {
                assert(table_laws::clash(entries[x], entries[y]));
            } else {
                assert(table_laws::clash(entries[y], entries[x]));
            }
        }
    }
    if table_laws::double_booked(entries) {
        if exists|e: int| 0 <= e < entries.len() && table_laws::repeats(#[trigger] entries[e]) {
            let e = choose|e: int|
                0 <= e < entries.len() && table_laws::repeats(#[trigger] entries[e]);
            let at = lemma_origin(plans, e);
            lemma_entry_at(entries, plans, at.0, at.1);
            lemma_contradicts(entries[e], plans, at.0, at.1);
        } else {
            let (e, f) = choose|e: int, f: int|
                #![trigger entries[e], entries[f]]
                0 <= e < f < entries.len() && routing::key_of(entries[e].pattern@)
                    == routing::key_of(entries[f].pattern@) && table_laws::clash(
                    entries[e],
                    entries[f],
                );
            let a = lemma_origin(plans, e);
            let b = lemma_origin(plans, f);
            lemma_entry_at(entries, plans, a.0, a.1);
            lemma_entry_at(entries, plans, b.0, b.1);
            lemma_collide(entries[e], entries[f], plans, a.0, a.1, b.0, b.1);
            assert(has_pattern(plans, a.0, a.1) && has_pattern(plans, b.0, b.1));
        }
    }
}

proof fn lemma_takes<R>(plans: Seq<Plan<R>>, i: int, j: int, g: int, h: int)
    requires
        has_pattern(plans, i, j),
        has_pattern(plans, g, h),
        pattern::lowered(plans[i].patterns[j]) is Ok,
        pattern::lowered(plans[g].patterns[h]) is Ok,
        pattern::lowered(plans[i].patterns[j])->Ok_0.segments.len() > 0,
        pattern::lowered(plans[i].patterns[j])->Ok_0.segments.last() is CatchAll,
    ensures
        takes(plans[g].patterns[h], plans[i].patterns[j]) <==> table::overrides(
            pattern::lowered(plans[i].patterns[j])->Ok_0.segments.drop_last(),
            pattern::lowered(plans[g].patterns[h])->Ok_0.segments,
            false,
        ),
{
    let tail = plans[i].patterns[j];
    let pat = plans[g].patterns[h];
    let a = pattern::lowered(tail)->Ok_0;
    let b = pattern::lowered(pat)->Ok_0;
    pattern::lowered_is_grammatical(tail);
    pattern::lowered_is_grammatical(pat);
    let prefix = a.segments.drop_last();
    assert(prefix.push(Seg::CatchAll) =~= a.segments);
    exclusive_laws::exclusivity_test_is_exact(prefix, b);
    assert(!a.trailing_slash);
    if takes(pat, tail) {
        let path = choose|path: Seq<u8>| #[trigger]
            router_laws::pattern_covers(tail, path) && router_laws::pattern_covers(pat, path)
                && routing::outranks(route_laws::terminal(pat), route_laws::terminal(tail));
        assert(routing::covers(exclusive_laws::tail_key(prefix), path));
    }
    if table::overrides(prefix, b.segments, false) {
        let path = choose|path: Seq<u8>| #[trigger]
            routing::covers(exclusive_laws::tail_key(prefix), path) && routing::covers(
                routing::key_of(b),
                path,
            ) && routing::outranks(routing::key_of(b), exclusive_laws::tail_key(prefix));
        assert(router_laws::pattern_covers(tail, path));
    }
}

/// An exclusive tail of the entries is intruded upon where one of the registrations is.
proof fn lemma_encroached<R>(entries: Seq<PathEntry>, plans: Seq<Plan<R>>)
    requires
        path_router::write_all(entries, path_router::all_rows(plans)),
        forall|i: int, j: int| #[trigger]
            has_pattern(plans, i, j) ==> pattern::lowered(plans[i].patterns[j]) is Ok,
    ensures
        (exists|e: int| 0 <= e < entries.len() && #[trigger] table::intruded(entries, e))
            <==> encroached(plans),
{
    if encroached(plans) {
        let (i, j, g, h) = choose|i: int, j: int, g: int, h: int|
            #[trigger] has_pattern(plans, i, j) && #[trigger] has_pattern(plans, g, h)
                && plans[i].opaque && pattern::lowered(
                plans[i].patterns[j],
            )->Ok_0.segments.last() is CatchAll && pattern::lowered(
                plans[i].patterns[j],
            )->Ok_0.segments.len() > 0 && takes(plans[g].patterns[h], plans[i].patterns[j]);
        lemma_entry_at(entries, plans, i, j);
        lemma_entry_at(entries, plans, g, h);
        lemma_takes(plans, i, j, g, h);
        let x = patterns_before(plans, i) + j;
        let y = patterns_before(plans, g) + h;
        assert(table::overrides(
            table::tail_prefix(entries[x].pattern@.segments)->Some_0,
            entries[y].pattern@.segments,
            false,
        ));
        assert(table::intruded(entries, x));
    }
    if exists|e: int| 0 <= e < entries.len() && #[trigger] table::intruded(entries, e) {
        let e = choose|e: int| 0 <= e < entries.len() && #[trigger] table::intruded(entries, e);
        let prefix = table::tail_prefix(entries[e].pattern@.segments)->Some_0;
        let f = choose|f: int|
            0 <= f < entries.len() && table::overrides(
                prefix,
                (#[trigger] entries[f]).pattern@.segments,
                false,
            );
        let a = lemma_origin(plans, e);
        let b = lemma_origin(plans, f);
        lemma_entry_at(entries, plans, a.0, a.1);
        lemma_entry_at(entries, plans, b.0, b.1);
        assert(has_pattern(plans, a.0, a.1) && has_pattern(plans, b.0, b.1));
        lemma_takes(plans, a.0, a.1, b.0, b.1);
    }
}

/// Sound registrations make a router exactly where they are not overbooked and no exclusive
/// tail is encroached upon. Of the two, that they are overbooked is said first.
pub proof fn sound_registrations_make_a_router<R>(
    built: Result<RuleRouter<R>, RuleRouterError>,
    default: R,
    config: GuardConfig,
    plans: Seq<Plan<R>>,
)
    requires
        path_router::constructs(built, default, config, plans),
        forall|i: int| 0 <= i < plans.len() ==> #[trigger] sound(plans, i, config),
    ensures
        built is Ok <==> !overbooked(plans) && !encroached(plans),
        built matches Err(e) ==> e@ is Route && e@->reason == if overbooked(plans) {
            "two routes resolve to the same path"@
        } else {
            "an exclusive_subtree has a nested route under it; remove the nested route or use subtree"@
        },
{
    first_faulty_registration_decides(plans, config);
    assert forall|i: int| 0 <= i < plans.len() implies (#[trigger] plans[i]).patterns.len() > 0 by {
        assert(sound(plans, i, config));
    }
    assert forall|i: int, j: int| #[trigger] has_pattern(plans, i, j) implies pattern::lowered(
        plans[i].patterns[j],
    ) is Ok by {
        assert(sound(plans, i, config));
        assert(path_router::pattern_fault(plans[i].patterns[j], config) is None);
    }
    match built {
        Ok(router) => {
            let entries = router.entries@;
            lemma_overbooked(entries, plans);
            lemma_encroached(entries, plans);
            table_laws::conflicts_are_double_bookings(entries);
        },
        Err(e) => {
            let (entries, failure) = choose|entries: Seq<PathEntry>, failure: BuildError| #[trigger]
                table::builds(entries, Err(failure)) && path_router::write_all(
                    entries,
                    path_router::all_rows(plans),
                ) && e@ == path_router::build_fault(failure, path_router::all_rows(plans));
            lemma_overbooked(entries, plans);
            lemma_encroached(entries, plans);
            table_laws::conflicts_are_double_bookings(entries);
            match failure {
                BuildError::Conflict { index } => {
                    assert(table::conflicts(entries, index as int));
                },
                BuildError::OpaqueTailHasSibling { at } => {
                    let i = choose|i: int| #[trigger]
                        table::first_intruded(entries, i) && at@ == table::prefix_text(
                            table::tail_prefix(entries[i].pattern@.segments)->Some_0,
                        );
                    assert(table::intruded(entries, i));
                },
            }
        },
    }
}

/// Whether the pattern `h` of the registration `g` stands before the pattern `j` of the
/// registration `i`.
pub open spec fn precedes(g: int, h: int, i: int, j: int) -> bool {
    g < i || (g == i && h < j)
}

/// Whether a pattern before this one is for the same path, and their registrations cannot
/// stand together, or this one's contradicts itself.
pub open spec fn overbooks<R>(plans: Seq<Plan<R>>, i: int, j: int) -> bool {
    ||| contradicts(plans[i])
    ||| exists|g: int, h: int|
        #[trigger] has_pattern(plans, g, h) && precedes(g, h, i, j) && route_laws::terminal(
            plans[g].patterns[h],
        ) == route_laws::terminal(plans[i].patterns[j]) && collide(plans[g], plans[i])
}

/// The place of a pattern among all says which stand before it.
proof fn lemma_precedes<R>(plans: Seq<Plan<R>>, g: int, h: int, i: int, j: int)
    requires
        has_pattern(plans, g, h),
        has_pattern(plans, i, j),
    ensures
        precedes(g, h, i, j) <==> patterns_before(plans, g) + h < patterns_before(plans, i) + j,
{
    if g < i {
        lemma_patterns_ascend(plans, g, i);
    } else if i < g {
        lemma_patterns_ascend(plans, i, g);
    }
}

/// An entry conflicts with those before it where its pattern overbooks.
proof fn lemma_conflict_named(entries: Seq<PathEntry>, x: int)
    requires
        0 <= x < entries.len(),
        table::conflicts(entries, x),
        forall|k: int| 0 <= k < x ==> !(#[trigger] table::conflicts(entries, k)),
    ensures
        table_laws::repeats(entries[x]) || exists|e: int|
            0 <= e < x && routing::key_of((#[trigger] entries[e]).pattern@) == routing::key_of(
                entries[x].pattern@,
            ) && table_laws::clash(entries[e], entries[x]),
{
    let some = entries.take(x + 1);
    let less = entries.take(x);
    table_laws::conflicts_are_double_bookings(some);
    table_laws::lemma_shorter_table(
        entries,
        x + 1,
        x as nat,
        routing::key_of(entries[x].pattern@),
    );
    assert(some[x] == entries[x]);
    assert(table::conflicts(some, x));
    lemma_unconflicted(entries, x);
    if exists|e: int| 0 <= e < some.len() && table_laws::repeats(#[trigger] some[e]) {
        let e = choose|e: int| 0 <= e < some.len() && table_laws::repeats(#[trigger] some[e]);
        if e < x {
            assert(less[e] == some[e]);
        }
    } else {
        let (e, f) = choose|e: int, f: int|
            #![trigger some[e], some[f]]
            0 <= e < f < some.len() && routing::key_of(some[e].pattern@) == routing::key_of(
                some[f].pattern@,
            ) && table_laws::clash(some[e], some[f]);
        if f < x {
            assert(less[e] == some[e] && less[f] == some[f]);
        }
        assert(entries[e] == some[e]);
    }
}

/// The pattern that is named as resolving to the same path as another one overbooks, and is the
/// first of which that can be said.
pub proof fn overbooked_patterns_are_named<R>(
    error: RuleRouterError,
    default: R,
    config: GuardConfig,
    plans: Seq<Plan<R>>,
)
    requires
        path_router::constructs(
            Err::<RuleRouter<R>, RuleRouterError>(error),
            default,
            config,
            plans,
        ),
        forall|i: int| 0 <= i < plans.len() ==> #[trigger] sound(plans, i, config),
        overbooked(plans),
    ensures
        exists|i: int, j: int|
            #[trigger] has_pattern(plans, i, j) && error@ == (Fault::Route {
                pattern: plans[i].patterns[j],
                reason: "two routes resolve to the same path"@,
            }) && overbooks(plans, i, j) && (forall|g: int, h: int|
                #[trigger] has_pattern(plans, g, h) && precedes(g, h, i, j) ==> !overbooks(
                    plans,
                    g,
                    h,
                )),
{
    first_faulty_registration_decides(plans, config);
    sound_registrations_make_a_router(
        Err::<RuleRouter<R>, RuleRouterError>(error),
        default,
        config,
        plans,
    );
    assert forall|i: int| 0 <= i < plans.len() implies (#[trigger] plans[i]).patterns.len() > 0 by {
        assert(sound(plans, i, config));
    }
    let rows = path_router::all_rows(plans);
    let (entries, failure) = choose|entries: Seq<PathEntry>, failure: BuildError| #[trigger]
        table::builds(entries, Err(failure)) && path_router::write_all(entries, rows) && error@
            == path_router::build_fault(failure, rows);
    lemma_overbooked(entries, plans);
    table_laws::conflicts_are_double_bookings(entries);
    let x = failure->index as int;
    lemma_conflict_named(entries, x);
    let (i, j) = lemma_origin(plans, x);
    lemma_place(plans, i, j);
    lemma_entry_at(entries, plans, i, j);
    assert(rows[x].text == plans[i].patterns[j]);
    lemma_contradicts(entries[x], plans, i, j);
    if !table_laws::repeats(entries[x]) {
        let e = choose|e: int|
            0 <= e < x && routing::key_of((#[trigger] entries[e]).pattern@) == routing::key_of(
                entries[x].pattern@,
            ) && table_laws::clash(entries[e], entries[x]);
        let (g, h) = lemma_origin(plans, e);
        lemma_entry_at(entries, plans, g, h);
        lemma_collide(entries[e], entries[x], plans, g, h, i, j);
        lemma_precedes(plans, g, h, i, j);
        assert(has_pattern(plans, g, h) && precedes(g, h, i, j));
    }
    assert(overbooks(plans, i, j));
    assert forall|g: int, h: int|
        #[trigger] has_pattern(plans, g, h) && precedes(g, h, i, j) implies !overbooks(
        plans,
        g,
        h,
    ) by {
        lemma_precedes(plans, g, h, i, j);
        lemma_entry_at(entries, plans, g, h);
        let y = patterns_before(plans, g) + h;
        lemma_contradicts(entries[y], plans, g, h);
        lemma_unconflicted(entries, x);
        if table_laws::repeats(entries[y]) {
            assert(entries.take(x)[y] == entries[y]);
        }
        if overbooks(plans, g, h) && !contradicts(plans[g]) {
            let (a, b) = choose|a: int, b: int|
                #[trigger] has_pattern(plans, a, b) && precedes(a, b, g, h) && route_laws::terminal(
                    plans[a].patterns[b],
                ) == route_laws::terminal(plans[g].patterns[h]) && collide(plans[a], plans[g]);
            lemma_precedes(plans, a, b, g, h);
            lemma_entry_at(entries, plans, a, b);
            let z = patterns_before(plans, a) + b;
            lemma_collide(entries[z], entries[y], plans, a, b, g, h);
            assert(entries.take(x)[z] == entries[z] && entries.take(x)[y] == entries[y]);
        }
    }
}

/// The entries before the first conflict are not double-booked.
proof fn lemma_unconflicted(entries: Seq<PathEntry>, x: int)
    requires
        0 <= x < entries.len(),
        forall|k: int| 0 <= k < x ==> !(#[trigger] table::conflicts(entries, k)),
    ensures
        !table_laws::double_booked(entries.take(x)),
{
    let less = entries.take(x);
    table_laws::conflicts_are_double_bookings(less);
    assert forall|k: int| 0 <= k < x implies !(#[trigger] table::conflicts(less, k)) by {
        table_laws::lemma_shorter_table(
            entries,
            x,
            k as nat,
            routing::key_of(entries[k].pattern@),
        );
        assert(less[k] == entries[k]);
        assert(!table::conflicts(entries, k));
    }
}

} // verus!
