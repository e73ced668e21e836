//! Building a router from a route table.

use vstd::prelude::*;

use crate::cover::{RuleId, DEFAULT_RULE};
use crate::diagnostics::RawMatch;
use crate::pattern::{Pattern, Seg, Segment};
use crate::route_tree;
use crate::route_tree::{compute_cover, insert, Node, Router};
use crate::routing;
use crate::routing::{Key, MethodGap, Slot, Slots};
use crate::slot;
use crate::slot::{MethodMatch, PathEntry};

verus! {

/// The table that the first `n` entries make.
pub open spec fn table_after(entries: Seq<PathEntry>, n: nat, key: Key) -> Slot
    decreases n,
{
    if n == 0 {
        routing::unclaimed()
    } else {
        let before = table_after(entries, (n - 1) as nat, key);
        if key == routing::key_of(entries[n - 1].pattern@) {
            slot::slot_with_entry(before, entries[n - 1])->Some_0
        } else {
            before
        }
    }
}

/// Whether the entry `i` conflicts with the entries before it.
pub open spec fn conflicts(entries: Seq<PathEntry>, i: int) -> bool {
    slot::slot_with_entry(
        table_after(entries, i as nat, routing::key_of(entries[i].pattern@)),
        entries[i],
    ) is None
}

/// Whether `candidate` can win for a path in the tail of an exclusive catch-all behind
/// `prefix`. The first differing segment fixes precedence; `higher` says that it went to
/// the candidate. Later segments still have to overlap, but cannot reverse that.
pub open spec fn overrides(
    prefix: Seq<Seg>,
    candidate: Seq<Seg>,
    higher: bool,
) -> bool
    decreases prefix.len(),
{
    if candidate.len() == 0 {
        false
    } else if prefix.len() == 0 {
        if candidate.len() == 1 && candidate[0] is CatchAll {
            higher
        } else {
            true
        }
    } else {
        match (prefix[0], candidate[0]) {
            (Seg::Literal(a), Seg::Literal(b)) => a == b && overrides(
                prefix.skip(1),
                candidate.skip(1),
                higher,
            ),
            (Seg::Wildcard, Seg::Literal(_)) => overrides(prefix.skip(1), candidate.skip(1), true),
            (Seg::Literal(_), Seg::Wildcard) => higher && overrides(
                prefix.skip(1),
                candidate.skip(1),
                higher,
            ),
            (_, Seg::CatchAll) => higher,
            _ => overrides(prefix.skip(1), candidate.skip(1), higher),
        }
    }
}

/// The segments before a final catch-all; `None` where there is none.
pub open spec fn tail_prefix(segments: Seq<Seg>) -> Option<Seq<Seg>> {
    if segments.len() > 0 && segments.last() is CatchAll {
        Some(segments.drop_last())
    } else {
        None
    }
}

/// Whether another entry takes precedence in the tail that entry `i` declares exclusive.
pub open spec fn intruded(entries: Seq<PathEntry>, i: int) -> bool {
    &&& entries[i].opaque
    &&& tail_prefix(entries[i].pattern@.segments) matches Some(prefix) && exists|j: int|
        0 <= j < entries.len() && overrides(
            prefix,
            (#[trigger] entries[j]).pattern@.segments,
            false,
        )
}

/// How a prefix is named in messages: `*` stands for a wildcard segment.
pub open spec fn prefix_text(prefix: Seq<Seg>) -> Seq<char> {
    if prefix.len() == 0 {
        seq!['/']
    } else {
        segments_text(prefix)
    }
}

/// Segments, each behind a slash.
pub open spec fn segments_text(prefix: Seq<Seg>) -> Seq<char>
    decreases prefix.len(),
{
    if prefix.len() == 0 {
        Seq::empty()
    } else {
        segments_text(prefix.drop_last()) + seq!['/'] + match prefix.last() {
            Seg::Literal(text) => text,
            _ => seq!['*'],
        }
    }
}

/// Why building a [`Router`] failed.
#[derive(Clone, Debug, PartialEq, Eq)]
pub enum BuildError {
    /// Two rules claim the same terminal slot. `index` is the position of the entry that
    /// hit the conflict.
    Conflict {
        /// Index of the conflicting entry.
        index: usize,
    },
    /// Another pattern can take precedence beneath an exclusive catch-all,
    /// including through an overlapping literal or wildcard branch.
    OpaqueTailHasSibling {
        /// The literal path prefix of the offending catch-all's node (`*` stands for a
        /// wildcard segment).
        at: String,
    },
}

/// Whether `candidate` can win for a path in the exclusive catch-all's tail, which begins
/// behind the first `n` segments of `exclusive`.
fn overrides_tail(exclusive: &Vec<Segment>, n: usize, candidate: &Vec<Segment>) -> (wins: bool)
    requires
        n <= exclusive@.len(),
    ensures
        wins == overrides(
            exclusive@.map_values(|s: Segment| s@).take(n as int),
            candidate@.map_values(|s: Segment| s@),
            false,
        ),
{
    let ghost prefix = exclusive@.map_values(|s: Segment| s@).take(n as int);
    let ghost cand = candidate@.map_values(|s: Segment| s@);
    let mut higher = false;
    let mut i: usize = 0;
    assert(prefix.skip(0) =~= prefix);
    assert(cand.skip(0) =~= cand);
    while i < n
        invariant
            i <= n <= exclusive@.len(),
            i <= candidate@.len(),
            prefix == exclusive@.map_values(|s: Segment| s@).take(n as int),
            cand == candidate@.map_values(|s: Segment| s@),
            overrides(prefix, cand, false) == overrides(
                prefix.skip(i as int),
                cand.skip(i as int),
                higher,
            ),
        decreases n - i,
    {
        proof {
            assert(prefix.skip(i as int).skip(1) =~= prefix.skip(i + 1));
            assert(prefix.skip(i as int)[0] == exclusive@[i as int]@);
        }
        if i == candidate.len() {
            // An exact ancestor or the bare prefix does not consume the tail.
            return false;
        }
        proof {
            assert(cand.skip(i as int).skip(1) =~= cand.skip(i + 1));
            assert(cand.skip(i as int)[0] == candidate@[i as int]@);
        }
        match (&exclusive[i], &candidate[i]) {
            (Segment::Literal(a), Segment::Literal(b)) => {
                if !(*a == *b) {
                    return false;
                }
            },
            (Segment::Wildcard, Segment::Literal(_)) => {
                higher = true;
            },
            (Segment::Literal(_), Segment::Wildcard) => {
                if !higher {
                    return false;
                }
            },
            (_, Segment::CatchAll) => {
                return higher;
            },
            _ => {},
        }
        i = i + 1;
    }
    if i == candidate.len() {
        false
    } else {
        assert(cand.skip(i as int)[0] == candidate@[i as int]@);
        if candidate.len() - i == 1 && matches!(candidate[i], Segment::CatchAll) {
            higher
        } else {
            true
        }
    }
}


/// The text of the first `n` segments.
fn prefix_name(segments: &Vec<Segment>, n: usize) -> (text: String)
    requires
        n <= segments@.len(),
    ensures
        text@ == prefix_text(segments@.map_values(|s: Segment| s@).take(n as int)),
{
    let ghost views = segments@.map_values(|s: Segment| s@);
    let mut text = String::new();
    let mut i: usize = 0;
    proof {
        reveal_strlit("/");
        reveal_strlit("*");
        assert("/"@ =~= seq!['/']);
        assert("*"@ =~= seq!['*']);
    }
    assert(segments_text(views.take(0)) =~= Seq::empty());
    while i < n
        invariant
            i <= n <= segments@.len(),
            views == segments@.map_values(|s: Segment| s@),
            text@ == segments_text(views.take(i as int)),
            "/"@ == seq!['/'],
            "*"@ == seq!['*'],
        decreases n - i,
    {
        let ghost before = text@;
        proof {
            assert(views.take(i + 1).drop_last() =~= views.take(i as int));
            assert(views.take(i + 1).last() == segments@[i as int]@);
        }
        text.append("/");
        match &segments[i] {
            Segment::Literal(literal) => {
                text.append(literal.as_str());
            },
            _ => {
                text.append("*");
            },
        }
        i = i + 1;
    }
    if n == 0 {
        text.append("/");
        assert(text@ =~= seq!['/']);
    }
    text
}

/// Check parsed patterns rather than only tree descendants: a literal branch can override
/// an exclusive wildcard branch even though neither node contains the other. Methods do
/// not participate because path precedence is resolved first.
fn validate_opaque(entries: &Vec<PathEntry>) -> (checked: Result<(), BuildError>)
    ensures
        match checked {
            Ok(_) => forall|i: int| 0 <= i < entries@.len() ==> !(#[trigger] intruded(entries@, i)),
            Err(e) => exists|i: int| #[trigger] first_intruded(entries@, i) && (e matches
                BuildError::OpaqueTailHasSibling { at } && at@ == prefix_text(
                tail_prefix(entries@[i].pattern@.segments)->Some_0,
            )),
        },
{
    let mut i: usize = 0;
    while i < entries.len()
        invariant
            i <= entries@.len(),
            forall|k: int| 0 <= k < i ==> !(#[trigger] intruded(entries@, k)),
        decreases entries@.len() - i,
    {
        let segments = &entries[i].pattern.segments;
        let n: usize = segments.len();
        let ghost views = entries@[i as int].pattern@.segments;
        if entries[i].opaque && n > 0 && matches!(segments[n - 1], Segment::CatchAll) {
            let ghost prefix = views.drop_last();
            assert(views.last() == segments@[n - 1]@);
            assert(views.take(n - 1) =~= prefix);
            let mut j: usize = 0;
            while j < entries.len()
                invariant
                    j <= entries@.len(),
                    i < entries@.len(),
                    n == segments@.len(),
                    n > 0,
                    *segments == entries@[i as int].pattern.segments,
                    views == entries@[i as int].pattern@.segments,
                    prefix == views.drop_last(),
                    views.take(n - 1) == prefix,
                    views == segments@.map_values(|s: Segment| s@),
                    tail_prefix(views) == Some(prefix),
                    entries@[i as int].opaque,
                    forall|k: int| 0 <= k < i ==> !(#[trigger] intruded(entries@, k)),
                    forall|k: int|
                        0 <= k < j ==> !overrides(
                            prefix,
                            (#[trigger] entries@[k]).pattern@.segments,
                            false,
                        ),
                decreases entries@.len() - j,
            {
                if overrides_tail(segments, n - 1, &entries[j].pattern.segments) {
                    assert(overrides(prefix, entries@[j as int].pattern@.segments, false));
                    assert(first_intruded(entries@, i as int));
                    let at = prefix_name(segments, n - 1);
                    return Err(BuildError::OpaqueTailHasSibling { at });
                }
                j = j + 1;
            }
        } else {
            assert(n > 0 ==> views.last() == segments@[n - 1]@);
        }
        assert(!intruded(entries@, i as int));
        i = i + 1;
    }
    Ok(())
}

/// Entry `i` is the first whose exclusive tail is intruded upon.
pub open spec fn first_intruded(entries: Seq<PathEntry>, i: int) -> bool {
    &&& 0 <= i < entries.len()
    &&& intruded(entries, i)
    &&& forall|k: int| 0 <= k < i ==> !(#[trigger] intruded(entries, k))
}

/// Whether a rule with this id stands in an entry for the terminal: for all methods, or for
/// one.
pub open spec fn listed(
    entries: Seq<PathEntry>,
    key: Key,
    method: Option<http::Method>,
    id: RuleId,
) -> bool {
    exists|e: int, r: int|
        0 <= e < entries.len() && routing::key_of(entries[e].pattern@) == key && 0 <= r
            < entries[e].rules@.len() && #[trigger] gives(entries[e].rules@[r], method, id)
}

/// Whether a rule has this id and applies to all methods, or lists the method.
pub open spec fn gives(
    rule: (MethodMatch, RuleId),
    method: Option<http::Method>,
    id: RuleId,
) -> bool {
    &&& rule.1 == id
    &&& match (method, rule.0) {
        (None, MethodMatch::Any) => true,
        (Some(m), MethodMatch::OneOf(ms)) => ms@.contains(m),
        _ => false,
    }
}

/// Whether every rule of a slot stands in an entry for the terminal.
pub open spec fn stems_from(slot: Slot, entries: Seq<PathEntry>, key: Key) -> bool {
    &&& slot.any matches Some(id) ==> listed(entries, key, None, id)
    &&& forall|i: int|
        0 <= i < slot.exact.len() ==> listed(
            entries,
            key,
            Some((#[trigger] slot.exact[i]).0),
            slot.exact[i].1,
        )
}

proof fn lemma_methods_stem(
    slot: Slot,
    entries: Seq<PathEntry>,
    key: Key,
    e: int,
    r: int,
    methods: Seq<http::Method>,
    n: nat,
)
    requires
        stems_from(slot, entries, key),
        0 <= e < entries.len(),
        routing::key_of(entries[e].pattern@) == key,
        0 <= r < entries[e].rules@.len(),
        entries[e].rules@[r].0 matches MethodMatch::OneOf(ms) && ms@ == methods,
        n <= methods.len(),
        slot::slot_with_methods(slot, methods, entries[e].rules@[r].1, n) is Some,
    ensures
        stems_from(
            slot::slot_with_methods(slot, methods, entries[e].rules@[r].1, n)->Some_0,
            entries,
            key,
        ),
    decreases n,
{
    if n > 0 {
        let id = entries[e].rules@[r].1;
        lemma_methods_stem(slot, entries, key, e, r, methods, (n - 1) as nat);
        let before = slot::slot_with_methods(slot, methods, id, (n - 1) as nat)->Some_0;
        let after = slot::slot_with_methods(slot, methods, id, n)->Some_0;
        assert(gives(entries[e].rules@[r], Some(methods[n - 1]), id));
        assert forall|i: int| 0 <= i < after.exact.len() implies listed(
            entries,
            key,
            Some((#[trigger] after.exact[i]).0),
            after.exact[i].1,
        ) by {
            if i < before.exact.len() {
                assert(after.exact[i] == before.exact[i]);
            }
        }
    }
}

proof fn lemma_rules_stem(slot: Slot, entries: Seq<PathEntry>, key: Key, e: int, n: nat)
    requires
        stems_from(slot, entries, key),
        0 <= e < entries.len(),
        routing::key_of(entries[e].pattern@) == key,
        n <= entries[e].rules@.len(),
        slot::slot_with_rules(slot, entries[e].rules@, n) is Some,
    ensures
        stems_from(slot::slot_with_rules(slot, entries[e].rules@, n)->Some_0, entries, key),
    decreases n,
{
    if n > 0 {
        lemma_rules_stem(slot, entries, key, e, (n - 1) as nat);
        let before = slot::slot_with_rules(slot, entries[e].rules@, (n - 1) as nat)->Some_0;
        let rule = entries[e].rules@[n - 1];
        match rule.0 {
            MethodMatch::Any => {
                assert(gives(entries[e].rules@[n - 1], None, rule.1));
            },
            MethodMatch::OneOf(ms) => {
                lemma_methods_stem(before, entries, key, e, n - 1, ms@, ms@.len());
            },
        }
    }
}

/// Every rule at a terminal of the table stands in an entry for it.
pub proof fn lemma_table_stems(entries: Seq<PathEntry>, n: nat, key: Key)
    requires
        n <= entries.len(),
        forall|i: int| 0 <= i < n ==> !(#[trigger] conflicts(entries, i)),
    ensures
        stems_from(table_after(entries, n, key), entries, key),
    decreases n,
{
    if n > 0 {
        lemma_table_stems(entries, (n - 1) as nat, key);
        let before = table_after(entries, (n - 1) as nat, key);
        let entry = entries[n - 1];
        if key == routing::key_of(entry.pattern@) {
            assert(!conflicts(entries, n - 1));
            let claimed = slot::slot_with_claim(before, entry.claim)->Some_0;
            assert(stems_from(claimed, entries, key));
            lemma_rules_stem(claimed, entries, key, n - 1, entry.rules@.len());
        }
    }
}

proof fn lemma_exact_rule(exact: Seq<(http::Method, RuleId)>, method: http::Method)
    ensures
        routing::exact_rule(exact, method) matches Some(id) ==> exists|i: int|
            0 <= i < exact.len() && #[trigger] exact[i] == (method, id),
    decreases exact.len(),
{
    if exact.len() > 0 && exact[0].0 != method {
        lemma_exact_rule(exact.skip(1), method);
        if let Some(id) = routing::exact_rule(exact.skip(1), method) {
            let i = choose|i: int|
                0 <= i < exact.skip(1).len() && #[trigger] exact.skip(1)[i] == (method, id);
            assert(exact[i + 1] == (method, id));
        }
    } else if exact.len() > 0 {
        assert(exact[0] == (exact[0].0, exact[0].1));
    }
}

/// A rule that a terminal decides for stands in an entry for it.
pub proof fn lemma_decision_stems(
    slot: Slot,
    entries: Seq<PathEntry>,
    key: Key,
    method: http::Method,
)
    requires
        stems_from(slot, entries, key),
    ensures
        routing::decide(slot, method) matches Some(RawMatch::Matched { id }) ==> listed(
            entries,
            key,
            None,
            id,
        ) || listed(entries, key, Some(method), id),
{
    lemma_exact_rule(slot.exact, method);
    if let Some(RawMatch::Matched { id }) = routing::decide(slot, method) {
        if routing::exact_rule(slot.exact, method) == Some(id) {
            let i = choose|i: int|
                0 <= i < slot.exact.len() && #[trigger] slot.exact[i] == (method, id);
            assert(listed(entries, key, Some(slot.exact[i].0), slot.exact[i].1));
        }
    }
}

/// Whether no rule of the entries has the id of the default.
pub open spec fn proper_ids(entries: Seq<PathEntry>) -> bool {
    forall|e: int, r: int|
        0 <= e < entries.len() && 0 <= r < entries[e].rules@.len() ==> (
        #[trigger] entries[e].rules@[r]).1 != DEFAULT_RULE
}

/// Whether every method that an entry lists is among `methods`.
spec fn collects(methods: Seq<http::Method>, entries: Seq<PathEntry>) -> bool {
    forall|key: Key, method: http::Method, id: RuleId| #[trigger]
        listed(entries, key, Some(method), id) ==> methods.contains(method)
}

/// Whether the slots are the table of the entries.
pub open spec fn tabulates(slots: Slots, entries: Seq<PathEntry>) -> bool {
    forall|key: Key| #[trigger] slots(key) == table_after(entries, entries.len(), key)
}

proof fn lemma_table_facts(slots: Slots, entries: Seq<PathEntry>, methods: Seq<http::Method>)
    requires
        tabulates(slots, entries),
        proper_ids(entries),
        collects(methods, entries),
        forall|i: int| 0 <= i < entries.len() ==> !(#[trigger] conflicts(entries, i)),
    ensures
        route_tree::genuine_rules(slots),
        route_tree::knows(slots, methods),
{
    assert forall|key: Key, method: http::Method| #[trigger]
        routing::decide(slots(key), method) != Some(RawMatch::Matched { id: DEFAULT_RULE }) by {
        lemma_table_stems(entries, entries.len(), key);
        lemma_decision_stems(slots(key), entries, key, method);
    }
    assert forall|key: Key, i: int| 0 <= i < slots(key).exact.len() implies methods.contains(
        (#[trigger] slots(key).exact[i]).0,
    ) by {
        lemma_table_stems(entries, entries.len(), key);
        let slot = slots(key);
        assert(listed(entries, key, Some(slot.exact[i].0), slot.exact[i].1));
    }
}

/// Adds a method unless it is there already.
fn add_method(methods: &mut Vec<http::Method>, method: &http::Method)
    ensures
        final(methods)@ == if old(methods)@.contains(*method) {
            old(methods)@
        } else {
            old(methods)@.push(*method)
        },
{
    let mut i: usize = 0;
    while i < methods.len()
        invariant
            i <= methods@.len(),
            methods@ == old(methods)@,
            forall|j: int| 0 <= j < i ==> methods@[j] != *method,
        decreases methods@.len() - i,
    {
        if methods[i] == *method {
            return ;
        }
        i = i + 1;
    }
    methods.push(method.clone());
}

/// Every method that an entry lists, once each.
fn listed_methods(entries: &Vec<PathEntry>) -> (methods: Vec<http::Method>)
    ensures
        collects(methods@, entries@),
{
    let mut methods: Vec<http::Method> = Vec::new();
    let mut e: usize = 0;
    while e < entries.len()
        invariant
            e <= entries@.len(),
            forall|x: int, r: int, method: http::Method, id: RuleId|
                0 <= x < e && 0 <= r < entries@[x].rules@.len() && #[trigger] gives(
                    entries@[x].rules@[r],
                    Some(method),
                    id,
                ) ==> methods@.contains(method),
        decreases entries@.len() - e,
    {
        let rules = &entries[e].rules;
        let mut r: usize = 0;
        while r < rules.len()
            invariant
                e < entries@.len(),
                r <= rules@.len(),
                *rules == entries@[e as int].rules,
                forall|x: int, y: int, method: http::Method, id: RuleId|
                    0 <= x < e && 0 <= y < entries@[x].rules@.len() && #[trigger] gives(
                        entries@[x].rules@[y],
                        Some(method),
                        id,
                    ) ==> methods@.contains(method),
                forall|y: int, method: http::Method, id: RuleId|
                    0 <= y < r && #[trigger] gives(rules@[y], Some(method), id)
                        ==> methods@.contains(method),
            decreases rules@.len() - r,
        {
            let ghost before = methods@;
            if let MethodMatch::OneOf(ms) = &rules[r].0 {
                let mut k: usize = 0;
                while k < ms.len()
                    invariant
                        k <= ms@.len(),
                        forall|m: http::Method| before.contains(m) ==> methods@.contains(m),
                        forall|j: int| 0 <= j < k ==> methods@.contains(#[trigger] ms@[j]),
                    decreases ms@.len() - k,
                {
                    let ghost now = methods@;
                    add_method(&mut methods, &ms[k]);
                    proof {
                        assert forall|m: http::Method| now.contains(m) implies methods@.contains(
                            m,
                        ) by {
                            let j = now.index_of(m);
                            assert(methods@[j] == m);
                        }
                        if !now.contains(ms@[k as int]) {
                            assert(methods@[now.len() as int] == ms@[k as int]);
                        }
                    }
                    k = k + 1;
                }
                assert forall|method: http::Method, id: RuleId| #[trigger]
                    gives(rules@[r as int], Some(method), id) implies methods@.contains(method) by {
                    let j = ms@.index_of(method);
                    assert(methods@.contains(ms@[j]));
                }
            }
            r = r + 1;
        }
        e = e + 1;
    }
    assert forall|key: Key, method: http::Method, id: RuleId| #[trigger]
        listed(entries@, key, Some(method), id) implies methods@.contains(method) by {
        let (x, r) = choose|x: int, r: int|
            0 <= x < entries@.len() && 0 <= r < entries@[x].rules@.len() && #[trigger] gives(
                entries@[x].rules@[r],
                Some(method),
                id,
            );
        assert(gives(entries@[x].rules@[r], Some(method), id));
    }
    methods
}

/// What building from the entries gives.
pub open spec fn builds(entries: Seq<PathEntry>, built: Result<Router, BuildError>) -> bool {
    match built {
        Ok(router) => {
            &&& router.wf()
            &&& tabulates(router.slots(), entries)
            &&& forall|i: int| 0 <= i < entries.len() ==> !(#[trigger] conflicts(entries, i))
            &&& forall|i: int| 0 <= i < entries.len() ==> !(#[trigger] intruded(entries, i))
        },
        Err(BuildError::Conflict { index }) => {
            &&& index < entries.len()
            &&& conflicts(entries, index as int)
            &&& forall|i: int| 0 <= i < index ==> !(#[trigger] conflicts(entries, i))
        },
        Err(BuildError::OpaqueTailHasSibling { at }) => {
            &&& forall|i: int| 0 <= i < entries.len() ==> !(#[trigger] conflicts(entries, i))
            &&& exists|i: int| #[trigger]
                first_intruded(entries, i) && at@ == prefix_text(
                    tail_prefix(entries[i].pattern@.segments)->Some_0,
                )
        },
    }
}

impl Router {
    /// Builds a router from what each pattern puts at its terminal.
    ///
    /// An opaque pattern's trailing catch-all is exclusive: a build-time guarantee that no
    /// more-specific path takes over beneath it. The declaration is ignored for patterns
    /// without a catch-all and adds no runtime behavior of its own.
    pub fn build_paths(entries: &Vec<PathEntry>) -> (built: Result<Self, BuildError>)
        requires
            proper_ids(entries@),
        ensures
            builds(entries@, built),
    {
        let mut root = Node::new();
        let mut i: usize = 0;
        while i < entries.len()
            invariant
                i <= entries@.len(),
                route_tree::tidy(root),
                forall|k: int| 0 <= k < i ==> !(#[trigger] conflicts(entries@, k)),
                forall|key: Key| #[trigger]
                    route_tree::lookup(root, key) == table_after(entries@, i as nat, key),
            decreases entries@.len() - i,
        {
            let entry = &entries[i];
            proof {
                assert(entry.pattern@.segments.skip(0) =~= entry.pattern@.segments);
                assert(route_tree::entry_key(*entry, 0) == routing::key_of(entry.pattern@));
            }
            let ghost before = root;
            match insert(&mut root, entry, 0) {
                Err(_) => {
                    assert(conflicts(entries@, i as int));
                    return Err(BuildError::Conflict { index: i });
                },
                Ok(_) => {},
            }
            proof {
                assert(!conflicts(entries@, i as int));
                assert forall|key: Key| #[trigger] route_tree::lookup(root, key) == table_after(
                    entries@,
                    (i + 1) as nat,
                    key,
                ) by {
                    assert(route_tree::lookup(before, key) == table_after(
                        entries@,
                        i as nat,
                        key,
                    ));
                }
            }
            i = i + 1;
        }
        match validate_opaque(entries) {
            Err(e) => {
                return Err(e);
            },
            Ok(_) => {},
        }
        let methods = listed_methods(entries);
        let ghost before = root;
        proof {
            assert forall|key: Key| #[trigger] route_tree::slots_of(root)(key) == table_after(
                entries@,
                entries@.len(),
                key,
            ) by {
                assert(route_tree::lookup(root, key) == table_after(
                    entries@,
                    entries@.len(),
                    key,
                ));
            }
            lemma_table_facts(route_tree::slots_of(root), entries@, methods@);
        }
        compute_cover(&mut root, &methods);
        let router = Router { root, methods };
        proof {
            route_tree::lemma_facts_carry(before, root, methods@);
            assert forall|key: Key| #[trigger] router.slots()(key) == table_after(
                entries@,
                entries@.len(),
                key,
            ) by {
                assert(route_tree::lookup(root, key) == route_tree::lookup(before, key));
                assert(route_tree::lookup(before, key) == table_after(
                    entries@,
                    entries@.len(),
                    key,
                ));
            }
        }
        Ok(router)
    }
}

/// One rule at one pattern: the pattern, the rule's id, whether the pattern's catch-all is
/// exclusive, and the rule's methods.
pub type Row = (Pattern, RuleId, bool, MethodMatch);

/// The entry that a row stands for. A method that the terminal has no rule for selects
/// the default; a row without methods claims nothing.
pub open spec fn row_entry(row: Row, entry: PathEntry) -> bool {
    &&& entry.pattern == row.0
    &&& entry.opaque == row.2
    &&& entry.claim == if row.3 matches MethodMatch::OneOf(ms) && ms@.len() == 0 {
        None
    } else {
        Some(MethodGap::Default)
    }
    &&& entry.rules@ == seq![(row.3, row.1)]
}

impl Router {
    /// Builds a router from single rules, under which a method without a rule at the
    /// terminal that a path claims selects the default.
    pub fn build(rows: Vec<Row>) -> (built: Result<Self, BuildError>)
        requires
            forall|i: int| 0 <= i < rows@.len() ==> (#[trigger] rows@[i]).1 != DEFAULT_RULE,
        ensures
            exists|entries: Seq<PathEntry>|
                entries.len() == rows@.len() && (forall|i: int|
                    0 <= i < entries.len() ==> row_entry(rows@[i], #[trigger] entries[i]))
                    && #[trigger] builds(entries, built),
    {
        let mut entries: Vec<PathEntry> = Vec::new();
        let ghost all = rows@;
        for row in iter: rows
            invariant
                iter.seq() == all,
                entries@.len() == iter.index(),
                forall|i: int|
                    0 <= i < entries@.len() ==> row_entry(all[i], #[trigger] entries@[i]),
        {
            let (pattern, id, opaque, methods) = row;
            let nothing = match &methods {
                MethodMatch::OneOf(ms) => ms.len() == 0,
                MethodMatch::Any => false,
            };
            let claim = if nothing {
                None
            } else {
                Some(MethodGap::Default)
            };
            let mut rules: Vec<(MethodMatch, RuleId)> = Vec::new();
            rules.push((methods, id));
            assert(rules@ =~= seq![(methods, id)]);
            entries.push(PathEntry { pattern, opaque, claim, rules });
        }
        assert(entries@.len() == all.len());
        assert forall|e: int, r: int|
            0 <= e < entries@.len() && 0 <= r < entries@[e].rules@.len() implies (
        #[trigger] entries@[e].rules@[r]).1 != DEFAULT_RULE by {
            assert(row_entry(all[e], entries@[e]));
            assert(all[e].1 != DEFAULT_RULE);
        }
        Router::build_paths(&entries)
    }
}

} // verus!
