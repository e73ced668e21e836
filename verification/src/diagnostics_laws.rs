//! What the method-gap diagnostics say: each is true of a request, and each gap at an
//! examined path is reported.

use vstd::prelude::*;

use crate::cover::RuleId;
use crate::diagnostics;
use crate::diagnostics::{Gap, RawMatch, Search, Site};
use crate::methods;
use crate::routing;
use crate::routing::MethodGap;
use crate::slot::{MethodMatch, PathEntry};
use crate::table;
use crate::table_laws;

verus! {

/// Whether the gap is there: for the method, the example path stops at the pattern's
/// terminal without a rule, and without that terminal it would select the rule.
pub open spec fn witnessed(search: Search, i: int, gap: Gap, method: http::Method) -> bool {
    &&& 0 <= i < search.entries.len()
    &&& search.sources[i]@ == gap.pattern
    &&& diagnostics::hidden_rule(site_at(search, i, gap.example), method) == Some(gap.shadowed)
}

/// The path as a place at which entry `i` may leave a gap.
pub open spec fn site_at(search: Search, i: int, path: Seq<char>) -> Site {
    Site {
        slots: search.slots,
        key: routing::key_of(search.entries[i].pattern@),
        source: search.sources[i]@,
        path,
    }
}

/// Whether every gap of the list is there for each of its methods.
spec fn all_witnessed(search: Search, list: Seq<Gap>) -> bool {
    forall|k: int, m: int|
        0 <= k < list.len() && 0 <= m < list[k].methods.len() ==> is_there(
            search,
            list[k],
            #[trigger] list[k].methods[m],
        )
}

/// Whether the gap is there for some entry.
spec fn is_there(search: Search, gap: Gap, method: http::Method) -> bool {
    exists|i: int| #[trigger] witnessed(search, i, gap, method)
}

/// Whether the list reports the rule hidden from the method at the site.
pub open spec fn reported(list: Seq<Gap>, site: Site, method: http::Method, shadowed: RuleId) -> bool {
    exists|k: int|
        0 <= k < list.len() && (#[trigger] list[k]).pattern == site.source && list[k].example
            == site.path && list[k].shadowed == shadowed && list[k].methods.contains(method)
}

/// New methods go behind the known ones, and nothing else does.
proof fn lemma_with_new(known: Seq<http::Method>, list: Seq<http::Method>, method: http::Method)
    ensures
        diagnostics::with_new(known, list).contains(method) <==> known.contains(method)
            || list.contains(method),
    decreases list.len(),
{
    if list.len() > 0 {
        let before = diagnostics::with_new(known, list.drop_last());
        lemma_with_new(known, list.drop_last(), method);
        lemma_with_new(known, list.drop_last(), list.last());
        let after = diagnostics::with_new(known, list);
        if list.contains(method) && !list.drop_last().contains(method) {
            let i = list.index_of(method);
            if i < list.len() - 1 {
                assert(list.drop_last()[i] == method);
            }
        }
        if list.drop_last().contains(method) {
            let i = list.drop_last().index_of(method);
            assert(list[i] == method);
        }
        if after != before {
            assert(after == before.push(list.last()));
            assert(after.last() == list.last());
            if before.contains(method) {
                let i = before.index_of(method);
                assert(after[i] == method);
            }
            if after.contains(method) {
                let i = after.index_of(method);
                if i < before.len() {
                    assert(before[i] == method);
                }
            }
        }
        assert(list[list.len() - 1] == list.last());
    }
}

/// Where a finding goes: into an alike one, or behind all.
proof fn lemma_noted(list: Seq<Gap>, found: Gap) -> (at: int)
    ensures
        0 <= at <= list.len(),
        ({
            let after = diagnostics::note_gap(list, found);
            &&& at < list.len() ==> after.len() == list.len() && list[at].alike(found) && after[at]
                == (Gap {
                methods: diagnostics::with_new(list[at].methods, found.methods),
                ..list[at]
            })
            &&& at == list.len() ==> after.len() == list.len() + 1 && after[at] == found
            &&& forall|k: int| 0 <= k < list.len() && k != at ==> #[trigger] after[k] == list[k]
        }),
    decreases list.len(),
{
    if list.len() == 0 {
        0
    } else if list[0].alike(found) {
        0
    } else {
        let rest = list.skip(1);
        let at = lemma_noted(rest, found);
        let after = diagnostics::note_gap(list, found);
        let inner = diagnostics::note_gap(rest, found);
        assert(after == seq![list[0]] + inner);
        assert forall|k: int| 0 <= k < list.len() && k != at + 1 implies #[trigger] after[k]
            == list[k] by {
            if k > 0 {
                assert(after[k] == inner[k - 1]);
                assert(rest[k - 1] == list[k]);
            }
        }
        assert(after[at + 1] == inner[at]);
        at + 1
    }
}

/// A finding that is there keeps the list true.
proof fn lemma_note_witnessed(search: Search, list: Seq<Gap>, found: Gap, i: int)
    requires
        all_witnessed(search, list),
        found.methods.len() == 1,
        witnessed(search, i, found, found.methods[0]),
    ensures
        all_witnessed(search, diagnostics::note_gap(list, found)),
{
    let at = lemma_noted(list, found);
    let after = diagnostics::note_gap(list, found);
    assert forall|k: int, m: int|
        0 <= k < after.len() && 0 <= m < after[k].methods.len() implies is_there(
        search,
        after[k],
        #[trigger] after[k].methods[m],
    ) by {
        let method = after[k].methods[m];
        if k != at {
            assert(after[k] == list[k]);
            let x = choose|x: int| #[trigger] witnessed(search, x, list[k], list[k].methods[m]);
            assert(witnessed(search, x, after[k], method));
        } else if at < list.len() {
            lemma_with_new(list[k].methods, found.methods, method);
            assert(after[k].methods.contains(method));
            if list[k].methods.contains(method) {
                let n = list[k].methods.index_of(method);
                let x = choose|x: int| #[trigger] witnessed(search, x, list[k], list[k].methods[n]);
                assert(witnessed(search, x, after[k], method));
            } else {
                assert(method == found.methods[0]);
                assert(witnessed(search, i, after[k], method));
            }
        } else {
            assert(witnessed(search, i, after[k], method));
        }
    }
}

proof fn lemma_gaps_at_witnessed(
    search: Search,
    list: Seq<Gap>,
    i: int,
    path: Seq<char>,
    methods: Seq<http::Method>,
)
    requires
        all_witnessed(search, list),
        0 <= i < search.entries.len(),
    ensures
        all_witnessed(search, diagnostics::gaps_at(list, site_at(search, i, path), methods)),
    decreases methods.len(),
{
    if methods.len() > 0 {
        let site = site_at(search, i, path);
        lemma_gaps_at_witnessed(search, list, i, path, methods.drop_last());
        if let Some(shadowed) = diagnostics::hidden_rule(site, methods.last()) {
            let found = Gap {
                pattern: site.source,
                example: path,
                methods: seq![methods.last()],
                shadowed,
            };
            assert(witnessed(search, i, found, found.methods[0]));
            lemma_note_witnessed(
                search,
                diagnostics::gaps_at(list, site, methods.drop_last()),
                found,
                i,
            );
        }
    }
}

proof fn lemma_gaps_against_witnessed(search: Search, list: Seq<Gap>, i: int, n: nat)
    requires
        all_witnessed(search, list),
        0 <= i < search.entries.len(),
        n <= search.entries.len(),
    ensures
        all_witnessed(search, diagnostics::gaps_against(list, search, i, n)),
    decreases n,
{
    if n > 0 {
        lemma_gaps_against_witnessed(search, list, i, (n - 1) as nat);
        if let Some(site) = diagnostics::site_of(search, i, n - 1) {
            lemma_gaps_at_witnessed(
                search,
                diagnostics::gaps_against(list, search, i, (n - 1) as nat),
                i,
                site.path,
                diagnostics::examined(search.entries),
            );
        }
    }
}

proof fn lemma_gaps_witnessed(search: Search, n: nat)
    requires
        n <= search.entries.len(),
    ensures
        all_witnessed(search, diagnostics::gaps_up_to(search, n)),
    decreases n,
{
    if n > 0 {
        lemma_gaps_witnessed(search, (n - 1) as nat);
        lemma_gaps_against_witnessed(
            search,
            diagnostics::gaps_up_to(search, (n - 1) as nat),
            n - 1,
            search.entries.len(),
        );
    }
}

/// Every diagnostic is true: for each of its methods, the example path stops at a terminal
/// of the named pattern without a rule, and would select the named rule if that terminal
/// were absent.
pub proof fn diagnostics_are_witnessed(search: Search, k: int, method: http::Method) -> (i: int)
    requires
        0 <= k < diagnostics::gaps_up_to(search, search.entries.len()).len(),
        diagnostics::gaps_up_to(search, search.entries.len())[k].methods.contains(method),
    ensures
        witnessed(
            search,
            i,
            diagnostics::gaps_up_to(search, search.entries.len())[k],
            method,
        ),
{
    let list = diagnostics::gaps_up_to(search, search.entries.len());
    lemma_gaps_witnessed(search, search.entries.len());
    let m = list[k].methods.index_of(method);
    choose|i: int| #[trigger] witnessed(search, i, list[k], list[k].methods[m])
}

/// What is reported stays reported.
proof fn lemma_still_reported(
    list: Seq<Gap>,
    found: Gap,
    site: Site,
    method: http::Method,
    shadowed: RuleId,
)
    requires
        reported(list, site, method, shadowed),
    ensures
        reported(diagnostics::note_gap(list, found), site, method, shadowed),
{
    let at = lemma_noted(list, found);
    let after = diagnostics::note_gap(list, found);
    let k = choose|k: int|
        0 <= k < list.len() && (#[trigger] list[k]).pattern == site.source && list[k].example
            == site.path && list[k].shadowed == shadowed && list[k].methods.contains(method);
    if k == at {
        lemma_with_new(list[k].methods, found.methods, method);
    }
    assert(after[k].methods.contains(method));
    assert(after[k].pattern == site.source);
}

proof fn lemma_gaps_at_keep(
    list: Seq<Gap>,
    here: Site,
    methods: Seq<http::Method>,
    site: Site,
    method: http::Method,
    shadowed: RuleId,
)
    requires
        reported(list, site, method, shadowed),
    ensures
        reported(diagnostics::gaps_at(list, here, methods), site, method, shadowed),
    decreases methods.len(),
{
    if methods.len() > 0 {
        lemma_gaps_at_keep(list, here, methods.drop_last(), site, method, shadowed);
        if let Some(other) = diagnostics::hidden_rule(here, methods.last()) {
            lemma_still_reported(
                diagnostics::gaps_at(list, here, methods.drop_last()),
                Gap {
                    pattern: here.source,
                    example: here.path,
                    methods: seq![methods.last()],
                    shadowed: other,
                },
                site,
                method,
                shadowed,
            );
        }
    }
}

proof fn lemma_gaps_at_report(
    list: Seq<Gap>,
    site: Site,
    methods: Seq<http::Method>,
    method: http::Method,
    shadowed: RuleId,
)
    requires
        methods.contains(method),
        diagnostics::hidden_rule(site, method) == Some(shadowed),
    ensures
        reported(diagnostics::gaps_at(list, site, methods), site, method, shadowed),
    decreases methods.len(),
{
    let before = diagnostics::gaps_at(list, site, methods.drop_last());
    if methods.last() == method {
        let found = Gap {
            pattern: site.source,
            example: site.path,
            methods: seq![method],
            shadowed,
        };
        let at = lemma_noted(before, found);
        let after = diagnostics::note_gap(before, found);
        if at < before.len() {
            lemma_with_new(before[at].methods, found.methods, method);
            assert(found.methods[0] == method);
        } else {
            assert(after[at].methods[0] == method);
        }
        assert(after[at].methods.contains(method));
        assert(after[at].pattern == site.source);
    } else {
        let i = methods.index_of(method);
        assert(methods.drop_last()[i] == method);
        lemma_gaps_at_report(list, site, methods.drop_last(), method, shadowed);
        if let Some(other) = diagnostics::hidden_rule(site, methods.last()) {
            lemma_still_reported(
                before,
                Gap {
                    pattern: site.source,
                    example: site.path,
                    methods: seq![methods.last()],
                    shadowed: other,
                },
                site,
                method,
                shadowed,
            );
        }
    }
}

proof fn lemma_gaps_against_report(
    list: Seq<Gap>,
    search: Search,
    i: int,
    n: nat,
    site: Site,
    method: http::Method,
    shadowed: RuleId,
)
    requires
        reported(list, site, method, shadowed) || exists|j: int|
            0 <= j < n && #[trigger] diagnostics::site_of(search, i, j) == Some(site)
                && diagnostics::hidden_rule(site, method) == Some(shadowed),
        diagnostics::examined(search.entries).contains(method),
    ensures
        reported(diagnostics::gaps_against(list, search, i, n), site, method, shadowed),
    decreases n,
{
    if n > 0 {
        let before = diagnostics::gaps_against(list, search, i, (n - 1) as nat);
        let methods = diagnostics::examined(search.entries);
        if !reported(list, site, method, shadowed) && !(exists|j: int|
            0 <= j < n - 1 && #[trigger] diagnostics::site_of(search, i, j) == Some(site)
                && diagnostics::hidden_rule(site, method) == Some(shadowed)) {
            assert(diagnostics::site_of(search, i, n - 1) == Some(site));
            lemma_gaps_at_report(before, site, methods, method, shadowed);
        } else {
            lemma_gaps_against_report(list, search, i, (n - 1) as nat, site, method, shadowed);
            if let Some(here) = diagnostics::site_of(search, i, n - 1) {
                lemma_gaps_at_keep(before, here, methods, site, method, shadowed);
            }
        }
    }
}

/// Every gap at an examined path is reported. The examined paths are those at which an entry
/// meets another one, for each terminal without a rule for all methods once; the examined
/// methods are the standard ones and the registered ones.
pub proof fn gaps_are_reported(
    search: Search,
    i: int,
    j: int,
    n: nat,
    method: http::Method,
)
    requires
        0 <= i < n <= search.entries.len(),
        0 <= j < search.entries.len(),
        !diagnostics::settled(search.entries, i),
        diagnostics::examined(search.entries).contains(method),
        diagnostics::site_of(search, i, j) is Some,
        diagnostics::hidden_rule(diagnostics::site_of(search, i, j)->Some_0, method) is Some,
    ensures
        reported(
            diagnostics::gaps_up_to(search, n),
            diagnostics::site_of(search, i, j)->Some_0,
            method,
            diagnostics::hidden_rule(
                diagnostics::site_of(search, i, j)->Some_0,
                method,
            )->Some_0,
        ),
    decreases n,
{
    let site = diagnostics::site_of(search, i, j)->Some_0;
    let shadowed = diagnostics::hidden_rule(site, method)->Some_0;
    let before = diagnostics::gaps_up_to(search, (n - 1) as nat);
    if i < n - 1 {
        gaps_are_reported(search, i, j, (n - 1) as nat, method);
    } else {
        assert(diagnostics::site_of(search, i, j) == Some(site));
    }
    if !diagnostics::settled(search.entries, n - 1) {
        lemma_gaps_against_report(
            before,
            search,
            n - 1,
            search.entries.len(),
            site,
            method,
            shadowed,
        );
    }
}

/// A terminal with a rule for all methods leaves no gap, so that entries for it need no
/// search.
pub proof fn served_terminals_leave_no_gap(
    search: Search,
    i: int,
    j: int,
    path: Seq<char>,
    method: http::Method,
)
    requires
        0 <= i < search.entries.len(),
        0 <= j < search.entries.len(),
        search.entries[j].pattern@ == search.entries[i].pattern@,
        diagnostics::serves_all(search.entries[j]),
        table::tabulates(search.slots, search.entries),
        forall|k: int|
            0 <= k < search.entries.len() ==> !(#[trigger] table::conflicts(search.entries, k)),
    ensures
        diagnostics::hidden_rule(site_at(search, i, path), method) is None,
{
    let key = routing::key_of(search.entries[i].pattern@);
    let bytes = vstd::utf8::encode_utf8(path);
    let entry = search.entries[j];
    let r = choose|r: int| 0 <= r < entry.rules@.len() && (#[trigger] entry.rules@[r]).0 is Any;
    let id = entry.rules@[r].1;
    assert(table::gives(search.entries[j].rules@[r], None, id));
    table_laws::terminals_hold_what_is_registered(
        search.entries,
        search.slots,
        key,
        None,
        id,
        MethodGap::Deny,
    );
    if routing::selects(search.slots, key, bytes, method) {
        routing::lemma_identity(search.slots, key, bytes, method);
    }
}

/// The names of the standard methods, letter by letter.
pub open spec fn method_letters() -> Seq<Seq<char>> {
    seq![
        seq!['G', 'E', 'T'],
        seq!['H', 'E', 'A', 'D'],
        seq!['P', 'O', 'S', 'T'],
        seq!['P', 'U', 'T'],
        seq!['D', 'E', 'L', 'E', 'T', 'E'],
        seq!['C', 'O', 'N', 'N', 'E', 'C', 'T'],
        seq!['O', 'P', 'T', 'I', 'O', 'N', 'S'],
        seq!['T', 'R', 'A', 'C', 'E'],
        seq!['P', 'A', 'T', 'C', 'H'],
    ]
}

/// Whether the method has one of these names.
pub open spec fn is_standard(method: http::Method) -> bool {
    exists|i: int|
        0 <= i < method_letters().len() && method == methods::parsed_method(
            vstd::utf8::encode_utf8(#[trigger] method_letters()[i]),
        )->Some_0
}

/// Whether a rule of the entries lists the method.
pub open spec fn is_listed(entries: Seq<PathEntry>, method: http::Method) -> bool {
    exists|e: int, r: int|
        0 <= e < entries.len() && 0 <= r < entries[e].rules@.len() && ((
        #[trigger] entries[e].rules@[r]).0 matches MethodMatch::OneOf(ms) && ms@.contains(method))
}

proof fn lemma_standard(method: http::Method)
    ensures
        methods::standard().contains(method) <==> is_standard(method),
{
    reveal_strlit("GET");
    reveal_strlit("HEAD");
    reveal_strlit("POST");
    reveal_strlit("PUT");
    reveal_strlit("DELETE");
    reveal_strlit("CONNECT");
    reveal_strlit("OPTIONS");
    reveal_strlit("TRACE");
    reveal_strlit("PATCH");
    let names = methods::standard_names();
    let letters = method_letters();
    assert(names[0] =~= letters[0]);
    assert(names[1] =~= letters[1]);
    assert(names[2] =~= letters[2]);
    assert(names[3] =~= letters[3]);
    assert(names[4] =~= letters[4]);
    assert(names[5] =~= letters[5]);
    assert(names[6] =~= letters[6]);
    assert(names[7] =~= letters[7]);
    assert(names[8] =~= letters[8]);
    assert forall|i: int| 0 <= i < letters.len() implies #[trigger] letters[i] == names[i] by {
        assert(0 <= i < 9);
    }
    if methods::standard().contains(method) {
        let i = methods::standard().index_of(method);
        assert(method == methods::parsed_method(vstd::utf8::encode_utf8(letters[i]))->Some_0);
    }
    if is_standard(method) {
        let i = choose|i: int|
            0 <= i < letters.len() && method == methods::parsed_method(
                vstd::utf8::encode_utf8(#[trigger] letters[i]),
            )->Some_0;
        assert(methods::standard()[i] == method);
    }
}

proof fn lemma_rule_methods(
    known: Seq<http::Method>,
    rules: Seq<(MethodMatch, RuleId)>,
    method: http::Method,
)
    ensures
        diagnostics::with_rule_methods(known, rules).contains(method) <==> known.contains(method)
            || exists|r: int|
            0 <= r < rules.len() && ((#[trigger] rules[r]).0 matches MethodMatch::OneOf(ms)
                && ms@.contains(method)),
    decreases rules.len(),
{
    if rules.len() > 0 {
        let less = rules.drop_last();
        lemma_rule_methods(known, less, method);
        let before = diagnostics::with_rule_methods(known, less);
        assert(forall|r: int| 0 <= r < less.len() ==> less[r] == #[trigger] rules[r]);
        if let MethodMatch::OneOf(ms) = rules.last().0 {
            lemma_with_new(before, ms@, method);
        }
        assert(rules[rules.len() - 1] == rules.last());
        if exists|r: int|
            0 <= r < less.len() && ((#[trigger] less[r]).0 matches MethodMatch::OneOf(ms)
                && ms@.contains(method)) {
            let r = choose|r: int|
                0 <= r < less.len() && ((#[trigger] less[r]).0 matches MethodMatch::OneOf(ms)
                    && ms@.contains(method));
            assert(rules[r] == less[r]);
        }
    }
}

proof fn lemma_entry_methods(
    known: Seq<http::Method>,
    entries: Seq<PathEntry>,
    method: http::Method,
)
    ensures
        diagnostics::with_entry_methods(known, entries).contains(method) <==> known.contains(method)
            || is_listed(entries, method),
    decreases entries.len(),
{
    if entries.len() > 0 {
        let less = entries.drop_last();
        let last = entries.len() - 1;
        lemma_entry_methods(known, less, method);
        let rules = entries.last().rules@;
        lemma_rule_methods(diagnostics::with_entry_methods(known, less), rules, method);
        if is_listed(less, method) {
            let (e, r) = choose|e: int, r: int|
                0 <= e < less.len() && 0 <= r < less[e].rules@.len() && ((
                #[trigger] less[e].rules@[r]).0 matches MethodMatch::OneOf(ms) && ms@.contains(
                    method,
                ));
            assert(entries[e].rules@[r].0 is OneOf);
        }
        if exists|r: int|
            0 <= r < rules.len() && ((#[trigger] rules[r]).0 matches MethodMatch::OneOf(ms)
                && ms@.contains(method)) {
            let r = choose|r: int|
                0 <= r < rules.len() && ((#[trigger] rules[r]).0 matches MethodMatch::OneOf(ms)
                    && ms@.contains(method));
            assert(entries[last].rules@[r].0 is OneOf);
        }
        if is_listed(entries, method) {
            let (e, r) = choose|e: int, r: int|
                0 <= e < entries.len() && 0 <= r < entries[e].rules@.len() && ((
                #[trigger] entries[e].rules@[r]).0 matches MethodMatch::OneOf(ms) && ms@.contains(
                    method,
                ));
            if e < last {
                assert(less[e].rules@[r].0 is OneOf);
            } else {
                assert(rules[r].0 is OneOf);
            }
        }
    }
}

/// A method is examined exactly where it is a standard one, or a rule lists it.
pub proof fn examined_methods_are_exact(entries: Seq<PathEntry>, method: http::Method)
    ensures
        diagnostics::examined(entries).contains(method) <==> is_standard(method) || is_listed(
            entries,
            method,
        ),
{
    lemma_standard(method);
    lemma_entry_methods(methods::standard(), entries, method);
}

/// A rule is hidden at a path exactly where the terminal is the foremost that decides there
/// and gives no rule, and the path without it selects the rule.
pub proof fn hidden_rules_are_exact(site: Site, method: http::Method, id: RuleId)
    ensures
        diagnostics::hidden_rule(site, method) == Some(id) <==> {
            let path = vstd::utf8::encode_utf8(site.path);
            &&& routing::selects(site.slots, site.key, path, method)
            &&& !(routing::decide((site.slots)(site.key), method)->Some_0 is Matched)
            &&& routing::identity(routing::without(site.slots, site.key), path, method)
                == (RawMatch::Matched { id })
        },
{
    let path = vstd::utf8::encode_utf8(site.path);
    if routing::selects(site.slots, site.key, path, method) {
        routing::lemma_identity(site.slots, site.key, path, method);
    }
}

/// No gap is missed: where an entry hides a rule from an examined method at the path at which
/// it meets another entry, the diagnostics report it, under an entry with the same pattern.
pub proof fn no_gap_is_missed(search: Search, i: int, j: int, method: http::Method) -> (g: int)
    requires
        0 <= i < search.entries.len(),
        0 <= j < search.entries.len(),
        table::tabulates(search.slots, search.entries),
        forall|k: int|
            0 <= k < search.entries.len() ==> !(#[trigger] table::conflicts(search.entries, k)),
        is_standard(method) || is_listed(search.entries, method),
        diagnostics::site_of(search, i, j) is Some,
        diagnostics::hidden_rule(diagnostics::site_of(search, i, j)->Some_0, method) is Some,
    ensures
        0 <= g < search.entries.len(),
        search.entries[g].pattern@ == search.entries[i].pattern@,
        reported(
            diagnostics::gaps_up_to(search, search.entries.len()),
            site_at(search, g, diagnostics::site_of(search, i, j)->Some_0.path),
            method,
            diagnostics::hidden_rule(
                diagnostics::site_of(search, i, j)->Some_0,
                method,
            )->Some_0,
        ),
    decreases i,
{
    let site = diagnostics::site_of(search, i, j)->Some_0;
    assert(site == site_at(search, i, site.path));
    examined_methods_are_exact(search.entries, method);
    if !diagnostics::settled(search.entries, i) {
        gaps_are_reported(search, i, j, search.entries.len(), method);
        i
    } else if exists|k: int|
        0 <= k < search.entries.len() && (#[trigger] search.entries[k]).pattern@
            == search.entries[i].pattern@ && diagnostics::serves_all(search.entries[k]) {
        let k = choose|k: int|
            0 <= k < search.entries.len() && (#[trigger] search.entries[k]).pattern@
                == search.entries[i].pattern@ && diagnostics::serves_all(search.entries[k]);
        served_terminals_leave_no_gap(search, i, k, site.path, method);
        i
    } else {
        let k = choose|k: int|
            0 <= k < i && (#[trigger] search.entries[k]).pattern@ == search.entries[i].pattern@;
        let other = diagnostics::site_of(search, k, j)->Some_0;
        assert(other.path == site.path && other.key == site.key);
        no_gap_is_missed(search, k, j, method)
    }
}

} // verus!
