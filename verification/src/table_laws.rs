//! What the table of a set of registrations holds: each rule at the terminals that it was
//! registered for, whatever the order.

use vstd::prelude::*;

use crate::cover::RuleId;
use crate::diagnostics::RawMatch;
use crate::routing;
use crate::routing::{Key, MethodGap, Slot, Slots, Step, Tail};
use crate::slot;
use crate::slot::{MethodMatch, PathEntry};
use crate::table;

verus! {

/// Whether the slot holds the rule: for all methods, or for one.
pub open spec fn stands(slot: Slot, method: Option<http::Method>, id: RuleId) -> bool {
    match method {
        None => slot.any == Some(id),
        Some(m) => slot.exact.contains((m, id)),
    }
}

/// Whether an entry for the terminal makes the claim.
pub open spec fn claimed(entries: Seq<PathEntry>, key: Key, gap: MethodGap) -> bool {
    exists|e: int|
        0 <= e < entries.len() && routing::key_of((#[trigger] entries[e]).pattern@) == key
            && entries[e].claim == Some(gap)
}

/// Whether no method has two rules of its own.
pub open spec fn single(slot: Slot) -> bool {
    forall|i: int, j: int|
        #![trigger slot.exact[i], slot.exact[j]]
        0 <= i < j < slot.exact.len() ==> slot.exact[i].0 != slot.exact[j].0
}

/// Whether the second slot holds all that the first one holds.
spec fn grows(a: Slot, b: Slot) -> bool {
    &&& a.any is Some ==> b.any == a.any
    &&& a.claim is Some ==> b.claim == a.claim
    &&& a.exact.is_prefix_of(b.exact)
}

proof fn lemma_grown(a: Slot, b: Slot, method: Option<http::Method>, id: RuleId)
    requires
        grows(a, b),
        stands(a, method, id),
    ensures
        stands(b, method, id),
{
    if let Some(m) = method {
        let i = a.exact.index_of((m, id));
        assert(b.exact[i] == (m, id));
    }
}

proof fn lemma_methods_added(slot: Slot, methods: Seq<http::Method>, id: RuleId, n: nat)
    requires
        n <= methods.len(),
        single(slot),
        slot::slot_with_methods(slot, methods, id, n) is Some,
    ensures
        ({
            let after = slot::slot_with_methods(slot, methods, id, n)->Some_0;
            &&& grows(slot, after)
            &&& after.any == slot.any
            &&& after.claim == slot.claim
            &&& single(after)
            &&& forall|i: int| 0 <= i < n ==> after.exact.contains((#[trigger] methods[i], id))
        }),
    decreases n,
{
    if n > 0 {
        lemma_methods_added(slot, methods, id, (n - 1) as nat);
        let before = slot::slot_with_methods(slot, methods, id, (n - 1) as nat)->Some_0;
        let after = slot::slot_with_methods(slot, methods, id, n)->Some_0;
        assert(after.exact == before.exact.push((methods[n - 1], id)));
        assert(slot.exact.is_prefix_of(after.exact));
        assert forall|i: int| 0 <= i < n implies after.exact.contains(
            (#[trigger] methods[i], id),
        ) by {
            if i < n - 1 {
                let k = before.exact.index_of((methods[i], id));
                assert(after.exact[k] == (methods[i], id));
            } else {
                assert(after.exact.last() == (methods[i], id));
            }
        }
    }
}

proof fn lemma_rules_added(slot: Slot, rules: Seq<(MethodMatch, RuleId)>, n: nat)
    requires
        n <= rules.len(),
        single(slot),
        slot::slot_with_rules(slot, rules, n) is Some,
    ensures
        ({
            let after = slot::slot_with_rules(slot, rules, n)->Some_0;
            &&& grows(slot, after)
            &&& after.claim == slot.claim
            &&& single(after)
            &&& forall|r: int, method: Option<http::Method>, id: RuleId|
                0 <= r < n && #[trigger] table::gives(rules[r], method, id) ==> stands(
                    after,
                    method,
                    id,
                )
        }),
    decreases n,
{
    if n > 0 {
        lemma_rules_added(slot, rules, (n - 1) as nat);
        let before = slot::slot_with_rules(slot, rules, (n - 1) as nat)->Some_0;
        let after = slot::slot_with_rules(slot, rules, n)->Some_0;
        let rule = rules[n - 1];
        if let MethodMatch::OneOf(ms) = rule.0 {
            lemma_methods_added(before, ms@, rule.1, ms@.len());
        }
        assert(grows(before, after));
        assert forall|r: int, method: Option<http::Method>, id: RuleId|
            0 <= r < n && #[trigger] table::gives(rules[r], method, id) implies stands(
            after,
            method,
            id,
        ) by {
            if r < n - 1 {
                lemma_grown(before, after, method, id);
            } else if let Some(m) = method {
                if let MethodMatch::OneOf(ms) = rule.0 {
                    let i = ms@.index_of(m);
                    assert(after.exact.contains((ms@[i], id)));
                }
            }
        }
    }
}

/// What an entry adds.
proof fn lemma_entry_added(slot: Slot, entry: PathEntry)
    requires
        single(slot),
        slot::slot_with_entry(slot, entry) is Some,
    ensures
        ({
            let after = slot::slot_with_entry(slot, entry)->Some_0;
            &&& grows(slot, after)
            &&& single(after)
            &&& entry.claim is Some ==> after.claim == entry.claim
            &&& entry.claim is None ==> after.claim == slot.claim
            &&& forall|r: int, method: Option<http::Method>, id: RuleId|
                0 <= r < entry.rules@.len() && #[trigger] table::gives(
                    entry.rules@[r],
                    method,
                    id,
                ) ==> stands(after, method, id)
        }),
{
    let with_claim = slot::slot_with_claim(slot, entry.claim)->Some_0;
    lemma_rules_added(with_claim, entry.rules@, entry.rules@.len());
}

/// What the first `n` entries put at a terminal stands there.
proof fn lemma_table_holds(entries: Seq<PathEntry>, n: nat, key: Key)
    requires
        n <= entries.len(),
        forall|i: int| 0 <= i < n ==> !(#[trigger] table::conflicts(entries, i)),
    ensures
        ({
            let slot = table::table_after(entries, n, key);
            &&& single(slot)
            &&& forall|e: int, r: int, method: Option<http::Method>, id: RuleId|
                0 <= e < n && routing::key_of(entries[e].pattern@) == key && 0 <= r
                    < entries[e].rules@.len() && #[trigger] table::gives(
                    entries[e].rules@[r],
                    method,
                    id,
                ) ==> stands(slot, method, id)
            &&& forall|e: int|
                0 <= e < n && routing::key_of((#[trigger] entries[e]).pattern@) == key
                    && entries[e].claim is Some ==> slot.claim == entries[e].claim
            &&& slot.claim matches Some(gap) ==> exists|e: int|
                0 <= e < n && routing::key_of((#[trigger] entries[e]).pattern@) == key
                    && entries[e].claim == Some(gap)
        }),
    decreases n,
{
    if n > 0 {
        lemma_table_holds(entries, (n - 1) as nat, key);
        let before = table::table_after(entries, (n - 1) as nat, key);
        let slot = table::table_after(entries, n, key);
        let entry = entries[n - 1];
        if routing::key_of(entry.pattern@) == key {
            assert(!table::conflicts(entries, n - 1));
            lemma_entry_added(before, entry);
            assert forall|e: int, r: int, method: Option<http::Method>, id: RuleId|
                0 <= e < n && routing::key_of(entries[e].pattern@) == key && 0 <= r
                    < entries[e].rules@.len() && #[trigger] table::gives(
                    entries[e].rules@[r],
                    method,
                    id,
                ) implies stands(slot, method, id) by {
                if e < n - 1 {
                    lemma_grown(before, slot, method, id);
                }
            }
            if entry.claim is None && slot.claim is Some {
                let e = choose|e: int|
                    0 <= e < n - 1 && routing::key_of((#[trigger] entries[e]).pattern@) == key
                        && entries[e].claim == before.claim;
                assert(entries[e].claim == slot.claim);
            }
            if entry.claim is Some {
                assert(entries[n - 1].claim == slot.claim);
            }
        } else if slot.claim is Some {
            let e = choose|e: int|
                0 <= e < n - 1 && routing::key_of((#[trigger] entries[e]).pattern@) == key
                    && entries[e].claim == before.claim;
            assert(entries[e].claim == slot.claim);
        }
    }
}

/// At each terminal stands what was registered for it, and nothing else: the rules with
/// their methods, at most one of them for any method, and what the terminal means for the
/// methods without one.
pub proof fn terminals_hold_what_is_registered(
    entries: Seq<PathEntry>,
    slots: Slots,
    key: Key,
    method: Option<http::Method>,
    id: RuleId,
    gap: MethodGap,
)
    requires
        table::tabulates(slots, entries),
        forall|i: int| 0 <= i < entries.len() ==> !(#[trigger] table::conflicts(entries, i)),
    ensures
        stands(slots(key), method, id) <==> table::listed(entries, key, method, id),
        slots(key).claim == Some(gap) <==> claimed(entries, key, gap),
        single(slots(key)),
{
    lemma_table_holds(entries, entries.len(), key);
    table::lemma_table_stems(entries, entries.len(), key);
    let slot = slots(key);
    if stands(slot, method, id) {
        if let Some(m) = method {
            let i = slot.exact.index_of((m, id));
            assert(table::listed(entries, key, Some(slot.exact[i].0), slot.exact[i].1));
        }
    }
    if claimed(entries, key, gap) {
        let e = choose|e: int|
            0 <= e < entries.len() && routing::key_of((#[trigger] entries[e]).pattern@) == key
                && entries[e].claim == Some(gap);
        assert(slot.claim == entries[e].claim);
    }
}

/// A method's own rule is the one that stands for it.
pub proof fn lemma_own_rule(exact: Seq<(http::Method, RuleId)>, method: http::Method)
    requires
        forall|i: int, j: int|
            #![trigger exact[i], exact[j]]
            0 <= i < j < exact.len() ==> exact[i].0 != exact[j].0,
    ensures
        match routing::exact_rule(exact, method) {
            Some(id) => exact.contains((method, id)),
            None => forall|id: RuleId| !(#[trigger] exact.contains((method, id))),
        },
        forall|id: RuleId| #[trigger]
            exact.contains((method, id)) ==> routing::exact_rule(exact, method) == Some(id),
    decreases exact.len(),
{
    if exact.len() > 0 {
        let rest = exact.skip(1);
        assert forall|i: int, j: int|
            #![trigger rest[i], rest[j]]
            0 <= i < j < rest.len() implies rest[i].0 != rest[j].0 by {
            assert(exact[i + 1].0 != exact[j + 1].0);
        }
        lemma_own_rule(rest, method);
        assert forall|id: RuleId| #[trigger] exact.contains(
            (method, id),
        ) implies routing::exact_rule(exact, method) == Some(id) by {
            let i = exact.index_of((method, id));
            if i > 0 {
                assert(exact[0].0 != exact[i].0);
                assert(rest[i - 1] == (method, id));
                assert(rest.contains((method, id)));
            }
        }
        if exact[0].0 == method {
            assert(exact[0] == (method, exact[0].1));
        } else if let Some(id) = routing::exact_rule(rest, method) {
            let i = rest.index_of((method, id));
            assert(exact[i + 1] == (method, id));
        }
    }
}

/// Whether the entries are the same, in whatever order.
pub open spec fn same_entries(a: Seq<PathEntry>, b: Seq<PathEntry>) -> bool {
    forall|entry: PathEntry| #[trigger] a.contains(entry) <==> b.contains(entry)
}

proof fn lemma_listed_too(
    a: Seq<PathEntry>,
    b: Seq<PathEntry>,
    key: Key,
    method: Option<http::Method>,
    id: RuleId,
)
    requires
        same_entries(a, b),
        table::listed(a, key, method, id),
    ensures
        table::listed(b, key, method, id),
{
    let (e, r) = choose|e: int, r: int|
        0 <= e < a.len() && routing::key_of(a[e].pattern@) == key && 0 <= r < a[e].rules@.len()
            && #[trigger] table::gives(a[e].rules@[r], method, id);
    assert(a.contains(a[e]));
    let f = b.index_of(a[e]);
    assert(table::gives(b[f].rules@[r], method, id));
}

proof fn lemma_claimed_too(a: Seq<PathEntry>, b: Seq<PathEntry>, key: Key, gap: MethodGap)
    requires
        same_entries(a, b),
        claimed(a, key, gap),
    ensures
        claimed(b, key, gap),
{
    let e = choose|e: int|
        0 <= e < a.len() && routing::key_of((#[trigger] a[e]).pattern@) == key && a[e].claim
            == Some(gap);
    assert(a.contains(a[e]));
    let f = b.index_of(a[e]);
    assert(b[f].claim == Some(gap));
}

/// What a terminal decides does not depend on the order of the registrations.
proof fn lemma_same_decision(
    a: Seq<PathEntry>,
    b: Seq<PathEntry>,
    x: Slots,
    y: Slots,
    key: Key,
    method: http::Method,
)
    requires
        same_entries(a, b),
        table::tabulates(x, a),
        table::tabulates(y, b),
        forall|i: int| 0 <= i < a.len() ==> !(#[trigger] table::conflicts(a, i)),
        forall|i: int| 0 <= i < b.len() ==> !(#[trigger] table::conflicts(b, i)),
    ensures
        routing::decide(x(key), method) == routing::decide(y(key), method),
{
    let own = Some(method);
    assert forall|m: Option<http::Method>, id: RuleId| #[trigger] stands(
        x(key),
        m,
        id,
    ) == stands(y(key), m, id) by {
        terminals_hold_what_is_registered(a, x, key, m, id, MethodGap::Deny);
        terminals_hold_what_is_registered(b, y, key, m, id, MethodGap::Deny);
        if table::listed(a, key, m, id) {
            lemma_listed_too(a, b, key, m, id);
        }
        if table::listed(b, key, m, id) {
            lemma_listed_too(b, a, key, m, id);
        }
    }
    lemma_same_claim(a, b, x, y, key);
    terminals_hold_what_is_registered(a, x, key, None, 0, MethodGap::Deny);
    terminals_hold_what_is_registered(b, y, key, None, 0, MethodGap::Deny);
    if let Some(id) = x(key).any {
        assert(stands(x(key), None, id));
    }
    if let Some(id) = y(key).any {
        assert(stands(x(key), None, id) == stands(y(key), None, id));
    }
    lemma_own_rule(x(key).exact, method);
    lemma_own_rule(y(key).exact, method);
    if let Some(id) = routing::exact_rule(x(key).exact, method) {
        assert(stands(x(key), Some(method), id));
    }
    if let Some(id) = routing::exact_rule(y(key).exact, method) {
        assert(stands(x(key), Some(method), id) == stands(y(key), Some(method), id));
    }
}

proof fn lemma_same_claim(a: Seq<PathEntry>, b: Seq<PathEntry>, x: Slots, y: Slots, key: Key)
    requires
        same_entries(a, b),
        table::tabulates(x, a),
        table::tabulates(y, b),
        forall|i: int| 0 <= i < a.len() ==> !(#[trigger] table::conflicts(a, i)),
        forall|i: int| 0 <= i < b.len() ==> !(#[trigger] table::conflicts(b, i)),
    ensures
        x(key).claim == y(key).claim,
{
    if let Some(gap) = x(key).claim {
        terminals_hold_what_is_registered(a, x, key, None, 0, gap);
        terminals_hold_what_is_registered(b, y, key, None, 0, gap);
        lemma_claimed_too(a, b, key, gap);
    }
    if let Some(gap) = y(key).claim {
        terminals_hold_what_is_registered(a, x, key, None, 0, gap);
        terminals_hold_what_is_registered(b, y, key, None, 0, gap);
        lemma_claimed_too(b, a, key, gap);
    }
}

/// A terminal is selected by what the terminals decide for the method alone.
proof fn lemma_same_selection(x: Slots, y: Slots, key: Key, path: Seq<u8>, method: http::Method)
    requires
        forall|k: Key| #[trigger]
            routing::decide(x(k), method) == routing::decide(y(k), method),
        routing::selects(x, key, path, method),
    ensures
        routing::selects(y, key, path, method),
{
    assert(routing::decide(x(key), method) == routing::decide(y(key), method));
    assert forall|other: Key| #[trigger] routing::contends(y, other, path, method) implies other
        == key || routing::outranks(key, other) by {
        assert(routing::decide(x(other), method) == routing::decide(y(other), method));
        assert(routing::contends(x, other, path, method));
    }
}

/// What a path selects is decided by what the terminals decide for the method.
pub proof fn lemma_same_identity(x: Slots, y: Slots, path: Seq<u8>, method: http::Method)
    requires
        forall|k: Key| #[trigger]
            routing::decide(x(k), method) == routing::decide(y(k), method),
    ensures
        routing::identity(x, path, method) == routing::identity(y, path, method),
{
    if exists|key: Key| routing::selects(x, key, path, method) {
        let key = choose|key: Key| routing::selects(x, key, path, method);
        lemma_same_selection(x, y, key, path, method);
        routing::lemma_identity(x, key, path, method);
        routing::lemma_identity(y, key, path, method);
        assert(routing::decide(x(key), method) == routing::decide(y(key), method));
    } else if exists|key: Key| routing::selects(y, key, path, method) {
        let key = choose|key: Key| routing::selects(y, key, path, method);
        assert forall|k: Key| #[trigger]
            routing::decide(y(k), method) == routing::decide(x(k), method) by {
            assert(routing::decide(x(k), method) == routing::decide(y(k), method));
        }
        lemma_same_selection(y, x, key, path, method);
    }
}

/// The order of the registrations does not matter: what a path selects under one order it
/// selects under any other, with the same ids.
pub proof fn order_does_not_matter(
    a: Seq<PathEntry>,
    b: Seq<PathEntry>,
    x: Slots,
    y: Slots,
    path: Seq<u8>,
    method: http::Method,
)
    requires
        same_entries(a, b),
        table::tabulates(x, a),
        table::tabulates(y, b),
        forall|i: int| 0 <= i < a.len() ==> !(#[trigger] table::conflicts(a, i)),
        forall|i: int| 0 <= i < b.len() ==> !(#[trigger] table::conflicts(b, i)),
    ensures
        routing::identity(x, path, method) == routing::identity(y, path, method),
{
    assert forall|key: Key| #[trigger]
        routing::decide(x(key), method) == routing::decide(y(key), method) by {
        lemma_same_decision(a, b, x, y, key, method);
    }
    lemma_same_identity(x, y, path, method);
}

/// Whether a tail is exclusive in fact does not depend on the order of the registrations.
pub proof fn exclusivity_ignores_order(a: Seq<PathEntry>, b: Seq<PathEntry>)
    requires
        same_entries(a, b),
        exists|i: int| 0 <= i < a.len() && #[trigger] table::intruded(a, i),
    ensures
        exists|i: int| 0 <= i < b.len() && #[trigger] table::intruded(b, i),
{
    let i = choose|i: int| 0 <= i < a.len() && #[trigger] table::intruded(a, i);
    let prefix = table::tail_prefix(a[i].pattern@.segments)->Some_0;
    let j = choose|j: int|
        0 <= j < a.len() && table::overrides(prefix, (#[trigger] a[j]).pattern@.segments, false);
    assert(a.contains(a[i]) && a.contains(a[j]));
    let k = b.index_of(a[i]);
    let l = b.index_of(a[j]);
    assert(table::overrides(prefix, b[l].pattern@.segments, false));
    assert(table::intruded(b, k));
}

/// Whether two rules are for one method, or both for all.
pub open spec fn contests(a: (MethodMatch, RuleId), b: (MethodMatch, RuleId)) -> bool {
    exists|method: Option<http::Method>| #[trigger]
        table::gives(a, method, a.1) && table::gives(b, method, b.1)
}

/// Whether an entry claims one method slot twice.
pub open spec fn repeats(entry: PathEntry) -> bool {
    ||| exists|r: int|
        0 <= r < entry.rules@.len() && ((#[trigger] entry.rules@[r]).0 matches MethodMatch::OneOf(
            ms,
        ) && !ms@.no_duplicates())
    ||| exists|r: int, s: int|
        0 <= r < s < entry.rules@.len() && #[trigger] contests(entry.rules@[r], entry.rules@[s])
}

/// Whether two entries for one terminal cannot stand together: they differ in what the
/// terminal means for methods without a rule, or they claim the same method slot.
pub open spec fn clash(a: PathEntry, b: PathEntry) -> bool {
    ||| a.claim is Some && b.claim is Some && a.claim != b.claim
    ||| exists|r: int, s: int|
        0 <= r < a.rules@.len() && 0 <= s < b.rules@.len() && #[trigger] contests(
            a.rules@[r],
            b.rules@[s],
        )
}

/// Whether two of the entries, or one by itself, claim one method slot twice.
pub open spec fn double_booked(entries: Seq<PathEntry>) -> bool {
    ||| exists|e: int| 0 <= e < entries.len() && repeats(#[trigger] entries[e])
    ||| exists|e: int, f: int|
        #![trigger entries[e], entries[f]]
        0 <= e < f < entries.len() && routing::key_of(entries[e].pattern@) == routing::key_of(
            entries[f].pattern@,
        ) && clash(entries[e], entries[f])
}

/// A method that has a rule takes no other.
proof fn lemma_taken(slot: Slot, methods: Seq<http::Method>, id: RuleId, n: nat)
    requires
        n <= methods.len(),
        slot::slot_with_methods(slot, methods, id, n) is Some,
    ensures
        forall|i: int, j: int|
            #![trigger slot.exact[i], methods[j]]
            0 <= i < slot.exact.len() && 0 <= j < n ==> slot.exact[i].0 != methods[j],
        forall|i: int, j: int|
            #![trigger methods[i], methods[j]]
            0 <= i < j < n ==> methods[i] != methods[j],
        slot::slot_with_methods(slot, methods, id, n)->Some_0.exact.len() == slot.exact.len() + n,
        forall|i: int|
            0 <= i < slot.exact.len() ==> slot::slot_with_methods(slot, methods, id, n)->Some_0.exact[i]
                == #[trigger] slot.exact[i],
        forall|i: int|
            0 <= i < n ==> slot::slot_with_methods(slot, methods, id, n)->Some_0.exact[slot.exact.len()
                + i] == (#[trigger] methods[i], id),
        slot::slot_with_methods(slot, methods, id, n)->Some_0.any == slot.any,
    decreases n,
{
    if n > 0 {
        lemma_taken(slot, methods, id, (n - 1) as nat);
        let before = slot::slot_with_methods(slot, methods, id, (n - 1) as nat)->Some_0;
        assert forall|i: int, j: int|
            #![trigger slot.exact[i], methods[j]]
            0 <= i < slot.exact.len() && 0 <= j < n implies slot.exact[i].0 != methods[j] by {
            assert(before.exact[i] == slot.exact[i]);
        }
        assert forall|i: int, j: int|
            #![trigger methods[i], methods[j]]
            0 <= i < j < n implies methods[i] != methods[j] by {
            assert(before.exact[slot.exact.len() + i] == (methods[i], id));
        }
    }
}

/// A prefix of rules that go in goes in.
proof fn lemma_rules_prefix(slot: Slot, rules: Seq<(MethodMatch, RuleId)>, n: nat, m: nat)
    requires
        m <= n,
        slot::slot_with_rules(slot, rules, n) is Some,
    ensures
        slot::slot_with_rules(slot, rules, m) is Some,
    decreases n,
{
    if m < n {
        lemma_rules_prefix(slot, rules, (n - 1) as nat, m);
    }
}

/// A rule that goes in meets no rule for one of its methods.
proof fn lemma_rule_fits(
    slot: Slot,
    rule: (MethodMatch, RuleId),
    method: Option<http::Method>,
    id: RuleId,
)
    requires
        slot::slot_with_rule(slot, rule.0, rule.1) is Some,
        stands(slot, method, id),
    ensures
        !table::gives(rule, method, rule.1),
{
    if let MethodMatch::OneOf(ms) = rule.0 {
        lemma_taken(slot, ms@, rule.1, ms@.len());
        if let Some(m) = method {
            let i = slot.exact.index_of((m, id));
            assert(slot.exact[i].0 == m);
            if ms@.contains(m) {
                let j = ms@.index_of(m);
                assert(slot.exact[i].0 != ms@[j]);
            }
        }
    }
}

/// Entries that all go in are not double-booked.
proof fn lemma_fit_means_free(entries: Seq<PathEntry>)
    requires
        forall|i: int| 0 <= i < entries.len() ==> !(#[trigger] table::conflicts(entries, i)),
    ensures
        !double_booked(entries),
{
    assert forall|e: int| 0 <= e < entries.len() implies !repeats(#[trigger] entries[e]) by {
        lemma_no_repeats(entries, e);
    }
    assert forall|e: int, f: int|
        #![trigger entries[e], entries[f]]
        0 <= e < f < entries.len() && routing::key_of(entries[e].pattern@) == routing::key_of(
            entries[f].pattern@,
        ) implies !clash(entries[e], entries[f]) by {
        lemma_no_clash(entries, e, f);
    }
}

proof fn lemma_no_repeats(entries: Seq<PathEntry>, e: int)
    requires
        0 <= e < entries.len(),
        forall|i: int| 0 <= i < entries.len() ==> !(#[trigger] table::conflicts(entries, i)),
    ensures
        !repeats(entries[e]),
{
    let key = routing::key_of(entries[e].pattern@);
    let rules = entries[e].rules@;
    lemma_table_holds(entries, e as nat, key);
    assert(!table::conflicts(entries, e));
    let before = table::table_after(entries, e as nat, key);
    let base = slot::slot_with_claim(before, entries[e].claim)->Some_0;
    assert(single(base));
    assert forall|r: int| 0 <= r < rules.len() implies !((#[trigger] rules[r]).0 matches
        MethodMatch::OneOf(ms) && !ms@.no_duplicates()) by {
        lemma_rules_prefix(base, rules, rules.len(), (r + 1) as nat);
        let s = slot::slot_with_rules(base, rules, r as nat)->Some_0;
        if let MethodMatch::OneOf(ms) = rules[r].0 {
            lemma_taken(s, ms@, rules[r].1, ms@.len());
            assert(ms@.no_duplicates());
        }
    }
    assert forall|r: int, s: int| 0 <= r < s < rules.len() implies !(#[trigger] contests(
        rules[r],
        rules[s],
    )) by {
        lemma_rules_prefix(base, rules, rules.len(), (s + 1) as nat);
        lemma_rules_prefix(base, rules, rules.len(), s as nat);
        lemma_rules_added(base, rules, s as nat);
        let slot = slot::slot_with_rules(base, rules, s as nat)->Some_0;
        if contests(rules[r], rules[s]) {
            let method = choose|method: Option<http::Method>| #[trigger]
                table::gives(rules[r], method, rules[r].1) && table::gives(
                    rules[s],
                    method,
                    rules[s].1,
                );
            assert(stands(slot, method, rules[r].1));
            lemma_rule_fits(slot, rules[s], method, rules[r].1);
        }
    }
}

proof fn lemma_no_clash(entries: Seq<PathEntry>, e: int, f: int)
    requires
        0 <= e < f < entries.len(),
        routing::key_of(entries[e].pattern@) == routing::key_of(entries[f].pattern@),
        forall|i: int| 0 <= i < entries.len() ==> !(#[trigger] table::conflicts(entries, i)),
    ensures
        !clash(entries[e], entries[f]),
{
    let key = routing::key_of(entries[f].pattern@);
    let rules = entries[f].rules@;
    lemma_table_holds(entries, f as nat, key);
    assert(!table::conflicts(entries, f));
    let before = table::table_after(entries, f as nat, key);
    let base = slot::slot_with_claim(before, entries[f].claim)->Some_0;
    assert(single(base));
    assert forall|r: int, s: int|
        0 <= r < entries[e].rules@.len() && 0 <= s < rules.len() implies !(#[trigger] contests(
        entries[e].rules@[r],
        rules[s],
    )) by {
        lemma_rules_prefix(base, rules, rules.len(), (s + 1) as nat);
        lemma_rules_prefix(base, rules, rules.len(), s as nat);
        lemma_rules_added(base, rules, s as nat);
        let slot = slot::slot_with_rules(base, rules, s as nat)->Some_0;
        let rule = entries[e].rules@[r];
        if contests(rule, rules[s]) {
            let method = choose|method: Option<http::Method>| #[trigger]
                table::gives(rule, method, rule.1) && table::gives(rules[s], method, rules[s].1);
            assert(stands(before, method, rule.1));
            assert(grows(before, slot));
            lemma_grown(before, slot, method, rule.1);
            lemma_rule_fits(slot, rules[s], method, rule.1);
        }
    }
    if entries[e].claim is Some {
        assert(before.claim == entries[e].claim);
    }
}

/// The table of the first entries is that of a shorter list.
pub proof fn lemma_shorter_table(entries: Seq<PathEntry>, i: int, n: nat, key: Key)
    requires
        n <= i <= entries.len(),
    ensures
        table::table_after(entries.take(i), n, key) == table::table_after(entries, n, key),
    decreases n,
{
    if n > 0 {
        lemma_shorter_table(entries, i, (n - 1) as nat, key);
    }
}

/// A rule meets no other where no rule of the slot is for one of its methods.
proof fn lemma_methods_fit(slot: Slot, methods: Seq<http::Method>, id: RuleId, n: nat)
    requires
        n <= methods.len(),
        methods.no_duplicates(),
        forall|i: int| 0 <= i < slot.exact.len() ==> !methods.contains((#[trigger] slot.exact[i]).0),
    ensures
        slot::slot_with_methods(slot, methods, id, n) is Some,
    decreases n,
{
    if n > 0 {
        lemma_methods_fit(slot, methods, id, (n - 1) as nat);
        lemma_taken(slot, methods, id, (n - 1) as nat);
        let before = slot::slot_with_methods(slot, methods, id, (n - 1) as nat)->Some_0;
        assert forall|i: int| 0 <= i < before.exact.len() implies (#[trigger] before.exact[i]).0
            != methods[n - 1] by {
            if i < slot.exact.len() {
                assert(before.exact[i] == slot.exact[i]);
                assert(methods.contains(methods[n - 1]));
            } else {
                assert(before.exact[slot.exact.len() + (i - slot.exact.len())] == (methods[i
                    - slot.exact.len()], id));
            }
        }
    }
}

/// Rules go in where none of them meets another, or one that stands there.
proof fn lemma_rules_fit(slot: Slot, entry: PathEntry, n: nat)
    requires
        n <= entry.rules@.len(),
        !repeats(entry),
        forall|r: int, method: Option<http::Method>, id: RuleId|
            0 <= r < entry.rules@.len() && #[trigger] stands(slot, method, id)
                ==> !#[trigger] table::gives(entry.rules@[r], method, entry.rules@[r].1),
    ensures
        slot::slot_with_rules(slot, entry.rules@, n) is Some,
        forall|method: Option<http::Method>, id: RuleId| #[trigger]
            stands(slot::slot_with_rules(slot, entry.rules@, n)->Some_0, method, id) ==> stands(
                slot,
                method,
                id,
            ) || exists|r: int|
                0 <= r < n && #[trigger] table::gives(entry.rules@[r], method, id),
    decreases n,
{
    if n > 0 {
        lemma_rules_fit(slot, entry, (n - 1) as nat);
        let rules = entry.rules@;
        let before = slot::slot_with_rules(slot, rules, (n - 1) as nat)->Some_0;
        let rule = rules[n - 1];
        assert forall|method: Option<http::Method>, id: RuleId| #[trigger]
            stands(before, method, id) implies !table::gives(rule, method, rule.1) by {
            if stands(slot, method, id) {
                assert(!table::gives(rules[n - 1], method, rules[n - 1].1));
            } else {
                let r = choose|r: int|
                    0 <= r < n - 1 && #[trigger] table::gives(rules[r], method, id);
                assert(!contests(rules[r], rules[n - 1]));
                assert(table::gives(rules[r], method, rules[r].1));
            }
        }
        match rule.0 {
            MethodMatch::Any => {
                if let Some(id) = before.any {
                    assert(stands(before, None, id));
                }
            },
            MethodMatch::OneOf(ms) => {
                assert(ms@.no_duplicates());
                assert forall|i: int| 0 <= i < before.exact.len() implies !ms@.contains(
                    (#[trigger] before.exact[i]).0,
                ) by {
                    let (m, id) = before.exact[i];
                    assert(before.exact.contains((m, id)));
                    assert(stands(before, Some(m), id));
                }
                lemma_methods_fit(before, ms@, rule.1, ms@.len());
                lemma_taken(before, ms@, rule.1, ms@.len());
            },
        }
        let after = slot::slot_with_rules(slot, rules, n)->Some_0;
        assert forall|method: Option<http::Method>, id: RuleId| #[trigger]
            stands(after, method, id) implies stands(slot, method, id) || exists|r: int|
            0 <= r < n && #[trigger] table::gives(rules[r], method, id) by {
            if stands(before, method, id) {
                if !stands(slot, method, id) {
                    let r = choose|r: int|
                        0 <= r < n - 1 && #[trigger] table::gives(rules[r], method, id);
                    assert(table::gives(rules[r], method, id));
                }
            } else {
                match rule.0 {
                    MethodMatch::Any => {},
                    MethodMatch::OneOf(ms) => {
                        let m = method->Some_0;
                        let i = after.exact.index_of((m, id));
                        if i < before.exact.len() {
                            assert(before.exact[i] == (m, id));
                        } else {
                            let k = i - before.exact.len();
                            assert(after.exact[before.exact.len() + k] == (ms@[k], rule.1));
                        }
                    },
                }
                assert(table::gives(rules[n - 1], method, id));
            }
        }
    }
}

/// An entry goes in where nothing is double-booked.
proof fn lemma_free_means_fit(entries: Seq<PathEntry>, n: int)
    requires
        !double_booked(entries),
        0 <= n <= entries.len(),
    ensures
        forall|i: int| 0 <= i < n ==> !(#[trigger] table::conflicts(entries, i)),
    decreases n,
{
    if n > 0 {
        let i = n - 1;
        lemma_free_means_fit(entries, i);
        let key = routing::key_of(entries[i].pattern@);
        let entry = entries[i];
        let before = table::table_after(entries, i as nat, key);
        let less = entries.take(i);
        assert(forall|j: int| 0 <= j < i ==> less[j] == entries[j]);
        assert forall|j: int| 0 <= j < i implies !(#[trigger] table::conflicts(less, j)) by {
            lemma_shorter_table(entries, i, j as nat, routing::key_of(entries[j].pattern@));
            assert(!table::conflicts(entries, j));
        }
        lemma_shorter_table(entries, i, i as nat, key);
        lemma_table_holds(less, i as nat, key);
        table::lemma_table_stems(less, i as nat, key);
        assert(!repeats(entries[i]));
        if let Some(gap) = before.claim {
            let e = choose|e: int|
                0 <= e < i && routing::key_of((#[trigger] less[e]).pattern@) == key
                    && less[e].claim == Some(gap);
            assert(!clash(entries[e], entries[i]));
        }
        let base = slot::slot_with_claim(before, entry.claim)->Some_0;
        assert forall|r: int, method: Option<http::Method>, id: RuleId|
            0 <= r < entry.rules@.len() && #[trigger] stands(base, method, id)
                implies !#[trigger] table::gives(entry.rules@[r], method, entry.rules@[r].1) by {
            if let Some(m) = method {
                let k = base.exact.index_of((m, id));
                assert(table::listed(less, key, Some(before.exact[k].0), before.exact[k].1));
            }
            assert(table::listed(less, key, method, id));
            let (e, s) = choose|e: int, s: int|
                0 <= e < less.len() && routing::key_of(less[e].pattern@) == key && 0 <= s
                    < less[e].rules@.len() && #[trigger] table::gives(less[e].rules@[s], method, id);
            assert(!clash(entries[e], entries[i]));
            assert(!contests(entries[e].rules@[s], entry.rules@[r]));
            assert(table::gives(entries[e].rules@[s], method, entries[e].rules@[s].1));
        }
        lemma_rules_fit(base, entry, entry.rules@.len());
    }
}

/// A table cannot be built exactly where two registrations for one terminal claim the same
/// method slot, or give the other methods different meanings, or where one registration
/// claims a method slot twice. The order of the registrations has no part in it.
pub proof fn conflicts_are_double_bookings(entries: Seq<PathEntry>)
    ensures
        double_booked(entries) <==> exists|i: int|
            0 <= i < entries.len() && #[trigger] table::conflicts(entries, i),
{
    if !double_booked(entries) {
        lemma_free_means_fit(entries, entries.len() as int);
    }
    if forall|i: int| 0 <= i < entries.len() ==> !(#[trigger] table::conflicts(entries, i)) {
        lemma_fit_means_free(entries);
    }
}

/// A terminal that does not decide for the method, as one that inherits and has no rule for
/// it, might as well be absent: matching goes on to what the path would select without it.
pub proof fn inheriting_terminals_are_passed_over(
    slots: Slots,
    key: Key,
    path: Seq<u8>,
    method: http::Method,
)
    requires
        routing::decide(slots(key), method) is None,
    ensures
        routing::identity(slots, path, method) == routing::identity(
            routing::without(slots, key),
            path,
            method,
        ),
{
    let fewer = routing::without(slots, key);
    assert forall|k: Key| #[trigger]
        routing::decide(slots(k), method) == routing::decide(fewer(k), method) by {
        assert(routing::decide(routing::unclaimed(), method) is None);
    }
    lemma_same_identity(slots, fewer, path, method);
}

/// The walk along an anchor sees what the terminals decide for the method.
proof fn lemma_same_walk(x: Slots, y: Slots, segs: Seq<Seq<u8>>, method: http::Method)
    requires
        forall|k: Key| #[trigger]
            routing::decide(x(k), method) == routing::decide(y(k), method),
    ensures
        routing::walk(x, segs, method) == routing::walk(y, segs, method),
    decreases segs.len(),
{
    if segs.len() == 0 {
        lemma_same_region(x, y, method, false);
        assert(routing::decide(x(routing::here(Tail::CatchAll)), method) == routing::decide(
            y(routing::here(Tail::CatchAll)),
            method,
        ));
        assert(routing::decide(x(routing::here(Tail::LeafSlash)), method) == routing::decide(
            y(routing::here(Tail::LeafSlash)),
            method,
        ));
    } else {
        let literal = Step::Literal(segs[0]);
        lemma_same_under(x, y, literal, method);
        lemma_same_under(x, y, Step::Wildcard, method);
        lemma_same_walk(
            routing::under(x, literal),
            routing::under(y, literal),
            segs.skip(1),
            method,
        );
        lemma_same_walk(
            routing::under(x, Step::Wildcard),
            routing::under(y, Step::Wildcard),
            segs.skip(1),
            method,
        );
        assert(routing::decide(x(routing::here(Tail::CatchAll)), method) == routing::decide(
            y(routing::here(Tail::CatchAll)),
            method,
        ));
    }
}

proof fn lemma_same_under(x: Slots, y: Slots, step: Step, method: http::Method)
    requires
        forall|k: Key| #[trigger]
            routing::decide(x(k), method) == routing::decide(y(k), method),
    ensures
        forall|k: Key| #[trigger]
            routing::decide(routing::under(x, step)(k), method) == routing::decide(
                routing::under(y, step)(k),
                method,
            ),
{
    assert forall|k: Key| #[trigger]
        routing::decide(routing::under(x, step)(k), method) == routing::decide(
            routing::under(y, step)(k),
            method,
        ) by {
        let whole = routing::behind(step, k);
        assert(routing::decide(x(whole), method) == routing::decide(y(whole), method));
    }
}

proof fn lemma_same_region(x: Slots, y: Slots, method: http::Method, leaf: bool)
    requires
        forall|k: Key| #[trigger]
            routing::decide(x(k), method) == routing::decide(y(k), method),
    ensures
        routing::region(x, method, leaf) == routing::region(y, method, leaf),
{
    let a = routing::region(x, method, leaf);
    let b = routing::region(y, method, leaf);
    assert forall|outcome: RawMatch| a.contains(outcome) == b.contains(outcome) by {
        if a.contains(outcome) {
            let key = choose|key: Key|
                (leaf || key != routing::here(Tail::Leaf)) && routing::decide(
                    #[trigger] x(key),
                    method,
                ) == Some(outcome);
            assert(routing::decide(x(key), method) == routing::decide(y(key), method));
            assert(routing::decide(y(key), method) == Some(outcome));
        }
        if b.contains(outcome) {
            let key = choose|key: Key|
                (leaf || key != routing::here(Tail::Leaf)) && routing::decide(
                    #[trigger] y(key),
                    method,
                ) == Some(outcome);
            assert(routing::decide(x(key), method) == routing::decide(y(key), method));
            assert(routing::decide(x(key), method) == Some(outcome));
        }
    }
    assert(a =~= b);
}

/// Rules for other methods have no part in a request: what a path selects, and what the
/// region behind an anchor selects, depends on what the terminals decide for its method.
pub proof fn other_methods_do_not_matter(
    x: Slots,
    y: Slots,
    path: Seq<u8>,
    segs: Seq<Seq<u8>>,
    method: http::Method,
)
    requires
        forall|k: Key| #[trigger]
            routing::decide(x(k), method) == routing::decide(y(k), method),
    ensures
        routing::identity(x, path, method) == routing::identity(y, path, method),
        routing::anchored(x, segs, method) == routing::anchored(y, segs, method),
{
    lemma_same_identity(x, y, path, method);
    lemma_same_walk(x, y, segs, method);
    lemma_same_region(x, y, method, true);
    assert(routing::decide(x(routing::here(Tail::Leaf)), method) == routing::decide(
        y(routing::here(Tail::Leaf)),
        method,
    ));
    assert(routing::decide(x(routing::here(Tail::CatchAll)), method) == routing::decide(
        y(routing::here(Tail::CatchAll)),
        method,
    ));
}

/// A row puts its rule at its pattern, for its methods, and keeps the tail exclusive where it
/// says so. Other methods get the default there; a row for no method leaves the path alone.
pub proof fn rows_say_what_they_hold(row: table::Row, entry: PathEntry)
    requires
        table::row_entry(row, entry),
    ensures
        entry.pattern == row.0,
        entry.opaque == row.2,
        entry.rules@.len() == 1,
        entry.rules@[0].0 == row.3,
        entry.rules@[0].1 == row.1,
        routing::decide_rule(entry.claim, None) == if row.3 matches MethodMatch::OneOf(ms) && ms@
            =~= Seq::<http::Method>::empty() {
            None::<RawMatch>
        } else {
            Some(RawMatch::Default)
        },
{
}

} // verus!
