//! Optional configuration lints with concrete routing witnesses.

use vstd::prelude::*;

use crate::config::ResolveError;
use crate::cover::RuleId;
use crate::guard::PathConfusionGuard;
use crate::methods;
use crate::methods::{method_name, standard_methods};
use crate::pattern::{Pattern, Seg, Segment, Shape};
use crate::route_tree;
use crate::routing;
use crate::routing::Slots;
use crate::slot::{MethodMatch, PathEntry};
use crate::text::{decimal_text, quote};

verus! {

/// Raw routing identity for diagnostics, without an authorization rule reference.
///
/// This does not establish that ambiguity checks passed.
#[derive(Clone, Copy, Debug, PartialEq, Eq, Structural)]
pub enum RawMatch {
    /// Lookup stopped at a path that does not serve this method or inherit.
    MethodDenied,
    /// A concrete rule definition's ID in insertion order.
    Matched {
        /// The registration ID.
        id: u32,
    },
    /// Matching exhausted the available paths, possibly through inheritance.
    Default,
}

impl RawMatch {
    /// The defining rule ID, or `None` for default or method denial.
    /// Match the enum variants to distinguish those outcomes.
    #[must_use]
    pub fn id(self) -> (id: Option<u32>)
        ensures
            id == match self {
                RawMatch::Matched { id } => Some(id),
                _ => None,
            },
    {
        match self {
            RawMatch::Matched { id } => Some(id),
            RawMatch::Default | RawMatch::MethodDenied => None,
        }
    }

    /// Whether raw matching selects the default.
    #[must_use]
    pub fn is_default(self) -> (default: bool)
        ensures
            default == (self == RawMatch::Default),
    {
        matches!(self, RawMatch::Default)
    }
}

/// Diagnostic explanation of a path's configured guard checks.
///
/// No policy reference is returned. Use `resolve` for request handling; an explanation
/// may allocate and inspect the route table beyond the normal checks.
#[derive(Clone, Debug, PartialEq, Eq)]
#[non_exhaustive]
pub struct ResolutionExplanation {
    /// Identity selected by the original path spelling.
    pub raw_match: RawMatch,
    /// The first denial, in the same check order as `resolve`, or `None`.
    pub denial: Option<ResolveError>,
    /// Coverage used by a scoped structural denial, if that check was reached.
    /// Unconditional NUL denials, strict mode, and other checks have no anchor.
    pub structural: Option<StructuralExplanation>,
}

/// The conservative region responsible for a scoped structural denial.
#[derive(Clone, Debug, PartialEq, Eq)]
#[non_exhaustive]
pub struct StructuralExplanation {
    /// Stable prefix retained after accounting for potential traversal.
    pub anchor: String,
    /// Rule IDs contributing to the region's coverage, sorted and unique.
    /// These are conservative possibilities, not necessarily actual normalized paths.
    pub registrations: Vec<u32>,
    /// Whether the default identity also contributes to the region's coverage.
    pub includes_default: bool,
    /// Whether the region contains paths that stop lookup without a method rule.
    pub includes_method_denial: bool,
}

impl StructuralExplanation {
    /// The outcomes that are listed.
    pub open spec fn outcomes(&self) -> Set<RawMatch> {
        Set::new(
            |outcome: RawMatch|
                match outcome {
                    RawMatch::Matched { id } => self.registrations@.contains(id),
                    RawMatch::Default => self.includes_default,
                    RawMatch::MethodDenied => self.includes_method_denial,
                },
        )
    }

    /// The ids are sorted, and none occurs twice.
    pub open spec fn sorted(&self) -> bool {
        forall|i: int, j: int|
            0 <= i < j < self.registrations@.len() ==> #[trigger] self.registrations@[i]
                < #[trigger] self.registrations@[j]
    }
}

/// A non-inheriting path denies methods served by a lower-priority matching path.
///
/// This is advisory: the gap may be intentional. It can also prevent uniform structural
/// coverage and cause encoded paths in the surrounding region to be denied. Supplying a
/// same-path rule fixes the gap, but a separate registration still has a distinct
/// identity. Enable inheritance to retain the broader rule identity, or group the
/// patterns under one definition.
#[derive(Clone, Debug, PartialEq, Eq)]
#[non_exhaustive]
pub struct MethodGapDiagnostic {
    /// A pattern at the terminal that prevents path fallback.
    pub pattern: String,
    /// A concrete raw path demonstrating the gap.
    pub example_path: String,
    /// Methods denied at this path instead of reaching the broader rule.
    ///
    /// Only standard HTTP methods and explicitly registered extension methods are
    /// examined; this list need not hold every affected extension method.
    pub methods: Vec<http::Method>,
    /// Rule ID selected if the blocking path terminal were absent.
    ///
    /// All method rules at that terminal are ignored together for this comparison.
    pub shadowed_registration: u32,
}

/// What a diagnostic says.
#[verifier::ext_equal]
pub ghost struct Gap {
    pub pattern: Seq<char>,
    pub example: Seq<char>,
    pub methods: Seq<http::Method>,
    pub shadowed: RuleId,
}

impl View for MethodGapDiagnostic {
    type V = Gap;

    open spec fn view(&self) -> Gap {
        Gap {
            pattern: self.pattern@,
            example: self.example_path@,
            methods: self.methods@,
            shadowed: self.shadowed_registration,
        }
    }
}

/// The names of the methods, separated by commas.
pub open spec fn names_text(methods: Seq<http::Method>) -> Seq<char>
    decreases methods.len(),
{
    if methods.len() == 0 {
        Seq::empty()
    } else if methods.len() == 1 {
        methods::method_text(methods[0])
    } else {
        names_text(methods.drop_last()) + ", "@ + methods::method_text(methods.last())
    }
}

impl Gap {
    /// The wording of the diagnostic.
    pub open spec fn text(self) -> Seq<char> {
        "pattern "@ + crate::text::quoted(self.pattern) + " denies "@ + names_text(self.methods)
            + " at "@ + crate::text::quoted(self.example) + ", hiding registration "@
            + crate::text::decimal(self.shadowed as nat)
            + "; this method gap can also cause encoded paths in the surrounding region to be denied"@
    }

    /// Whether two diagnostics report the same gap, for whatever methods.
    pub open spec fn alike(self, other: Gap) -> bool {
        self.pattern == other.pattern && self.example == other.example && self.shadowed
            == other.shadowed
    }
}

impl MethodGapDiagnostic {
    /// The diagnostic as a line for a log.
    pub fn to_string(&self) -> (text: String)
        ensures
            text@ == self@.text(),
    {
        let mut text = "pattern ".to_owned();
        text.append(quote(self.pattern.as_str()).as_str());
        text.append(" denies ");
        let ghost start = text@;
        let mut i: usize = 0;
        assert(start + names_text(self.methods@.take(0)) =~= start);
        while i < self.methods.len()
            invariant
                i <= self.methods@.len(),
                text@ == start + names_text(self.methods@.take(i as int)),
            decreases self.methods@.len() - i,
        {
            let ghost some = self.methods@.take(i + 1);
            assert(some.drop_last() =~= self.methods@.take(i as int));
            assert(some.last() == self.methods@[i as int]);
            if i > 0 {
                text.append(", ");
            }
            text.append(method_name(&self.methods[i]).as_str());
            assert(text@ =~= start + names_text(some));
            i = i + 1;
        }
        assert(self.methods@.take(i as int) =~= self.methods@);
        text.append(" at ");
        text.append(quote(self.example_path.as_str()).as_str());
        text.append(", hiding registration ");
        text.append(decimal_text(self.shadowed_registration as u64).as_str());
        text.append(
            "; this method gap can also cause encoded paths in the surrounding region to be denied",
        );
        assert(text@ =~= self@.text());
        text
    }
}

/// Whether a pattern ends in a catch-all.
pub open spec fn open_ended(shape: Shape) -> bool {
    shape.segments.len() > 0 && shape.segments.last() is CatchAll
}

/// Whether the two patterns agree on where a path ends.
pub open spec fn same_extent(a: Shape, b: Shape) -> bool {
    &&& open_ended(a) || a.segments.len() >= b.segments.len()
    &&& open_ended(b) || b.segments.len() >= a.segments.len()
    &&& open_ended(a) || open_ended(b) || a.trailing_slash == b.trailing_slash
}

/// The literal that a pattern has at a position.
pub open spec fn literal_at(shape: Shape, i: int) -> Option<Seq<char>> {
    if 0 <= i < shape.segments.len() && shape.segments[i] is Literal {
        Some(shape.segments[i]->Literal_0)
    } else {
        None
    }
}

/// Whether the two patterns have different literals at a position.
pub open spec fn clash_at(a: Shape, b: Shape, i: int) -> bool {
    literal_at(a, i) is Some && literal_at(b, i) is Some && literal_at(a, i) != literal_at(b, i)
}

/// The segment that suits both patterns at a position.
pub open spec fn common_segment(a: Shape, b: Shape, capture: Seq<char>, i: int) -> Seq<char> {
    match (literal_at(a, i), literal_at(b, i)) {
        (Some(text), _) => text,
        (None, Some(text)) => text,
        _ => capture,
    }
}

/// The first `n` segments that suit both patterns, each behind a slash.
pub open spec fn common_body(a: Shape, b: Shape, capture: Seq<char>, n: nat) -> Seq<char>
    decreases n,
{
    if n == 0 {
        Seq::empty()
    } else {
        common_body(a, b, capture, (n - 1) as nat) + seq!['/'] + common_segment(
            a,
            b,
            capture,
            n - 1,
        )
    }
}

/// The length of the longer pattern.
pub open spec fn longer_len(a: Shape, b: Shape) -> nat {
    if a.segments.len() >= b.segments.len() {
        a.segments.len()
    } else {
        b.segments.len()
    }
}

/// One path that both patterns cover; `None` where there is none. Segments that neither
/// pattern fixes read `capture`.
pub open spec fn overlap(a: Shape, b: Shape, capture: Seq<char>) -> Option<Seq<char>> {
    let count = longer_len(a, b);
    if !same_extent(a, b) || exists|i: int| 0 <= i < count && #[trigger] clash_at(a, b, i) {
        None
    } else {
        let body = common_body(a, b, capture, count);
        if count == 0 || (!open_ended(a) && a.trailing_slash) || (!open_ended(b)
            && b.trailing_slash) {
            Some(body.push('/'))
        } else {
            Some(body)
        }
    }
}

/// Whether the last segment is a catch-all.
fn ends_open(pattern: &Pattern) -> (open: bool)
    ensures
        open == open_ended(pattern@),
{
    let len: usize = pattern.segments.len();
    if len == 0 {
        return false;
    }
    assert(pattern@.segments.last() == pattern.segments@[len - 1]@);
    matches!(&pattern.segments[len - 1], Segment::CatchAll)
}

/// The literal at a position.
fn literal_of<'p>(pattern: &'p Pattern, i: usize) -> (literal: Option<&'p str>)
    ensures
        match literal {
            Some(text) => literal_at(pattern@, i as int) == Some(text@),
            None => literal_at(pattern@, i as int) is None,
        },
{
    if i >= pattern.segments.len() {
        return None;
    }
    assert(pattern@.segments[i as int] == pattern.segments@[i as int]@);
    match &pattern.segments[i] {
        Segment::Literal(text) => Some(text.as_str()),
        _ => None,
    }
}

/// Whether two texts are the same.
fn same_text(a: &str, b: &str) -> (same: bool)
    ensures
        same == (a@ == b@),
{
    a.to_owned() == b.to_owned()
}

/// One representative of a pairwise intersection. Actual matching subsequently checks
/// precedence against the whole table, so a hidden overlap cannot warn.
pub fn overlap_path(a: &Pattern, b: &Pattern, capture: &str) -> (path: Option<String>)
    ensures
        match path {
            Some(path) => overlap(a@, b@, capture@) == Some(path@),
            None => overlap(a@, b@, capture@) is None,
        },
{
    let a_tail = ends_open(a);
    let b_tail = ends_open(b);
    let a_len: usize = a.segments.len();
    let b_len: usize = b.segments.len();
    let count: usize = if a_len >= b_len {
        a_len
    } else {
        b_len
    };
    if (!a_tail && a_len != count) || (!b_tail && b_len != count) || (!a_tail && !b_tail
        && a.trailing_slash != b.trailing_slash) {
        return None;
    }
    let mut path = String::new();
    let mut i: usize = 0;
    assert(path@ =~= Seq::empty());
    while i < count
        invariant
            i <= count,
            count == longer_len(a@, b@),
            path@ == common_body(a@, b@, capture@, i as nat),
            forall|j: int| 0 <= j < i ==> !(#[trigger] clash_at(a@, b@, j)),
        decreases count - i,
    {
        let segment: &str = match (literal_of(a, i), literal_of(b, i)) {
            (Some(x), Some(y)) => {
                if !same_text(x, y) {
                    assert(clash_at(a@, b@, i as int));
                    return None;
                }
                x
            },
            (Some(x), None) => x,
            (None, Some(y)) => y,
            (None, None) => capture,
        };
        assert(!clash_at(a@, b@, i as int));
        assert(segment@ == common_segment(a@, b@, capture@, i as int));
        path.append("/");
        path.append(segment);
        proof {
            reveal_strlit("/");
            assert("/"@ =~= seq!['/']);
        }
        assert(path@ =~= common_body(a@, b@, capture@, (i + 1) as nat));
        i = i + 1;
    }
    if count == 0 || (!a_tail && a.trailing_slash) || (!b_tail && b.trailing_slash) {
        let ghost body = path@;
        path.append("/");
        proof {
            reveal_strlit("/");
            assert(path@ =~= body.push('/'));
        }
    }
    Some(path)
}

/// Whether two patterns say the same.
fn same_pattern(a: &Pattern, b: &Pattern) -> (same: bool)
    ensures
        same == (a@ == b@),
{
    if a.trailing_slash != b.trailing_slash || a.segments.len() != b.segments.len() {
        assert(a@.segments.len() == a.segments@.len() && b@.segments.len() == b.segments@.len());
        return false;
    }
    let mut i: usize = 0;
    while i < a.segments.len()
        invariant
            i <= a.segments@.len(),
            a.segments@.len() == b.segments@.len(),
            a.trailing_slash == b.trailing_slash,
            forall|j: int| 0 <= j < i ==> (#[trigger] a.segments@[j])@ == b.segments@[j]@,
        decreases a.segments@.len() - i,
    {
        let same = match (&a.segments[i], &b.segments[i]) {
            (Segment::Literal(x), Segment::Literal(y)) => *x == *y,
            (Segment::Wildcard, Segment::Wildcard) => true,
            (Segment::CatchAll, Segment::CatchAll) => true,
            _ => false,
        };
        if !same {
            assert(a@.segments[i as int] == a.segments@[i as int]@);
            assert(b@.segments[i as int] == b.segments@[i as int]@);
            return false;
        }
        i = i + 1;
    }
    assert(a@.segments =~= b@.segments);
    true
}

/// The methods with those of the list that are new appended.
pub open spec fn with_new(known: Seq<http::Method>, list: Seq<http::Method>) -> Seq<http::Method>
    decreases list.len(),
{
    if list.len() == 0 {
        known
    } else {
        let before = with_new(known, list.drop_last());
        if before.contains(list.last()) {
            before
        } else {
            before.push(list.last())
        }
    }
}

/// The methods with those of the rules that are new appended.
pub open spec fn with_rule_methods(
    known: Seq<http::Method>,
    rules: Seq<(MethodMatch, RuleId)>,
) -> Seq<http::Method>
    decreases rules.len(),
{
    if rules.len() == 0 {
        known
    } else {
        let before = with_rule_methods(known, rules.drop_last());
        match rules.last().0 {
            MethodMatch::Any => before,
            MethodMatch::OneOf(ms) => with_new(before, ms@),
        }
    }
}

/// The methods with those of the entries that are new appended.
pub open spec fn with_entry_methods(
    known: Seq<http::Method>,
    entries: Seq<PathEntry>,
) -> Seq<http::Method>
    decreases entries.len(),
{
    if entries.len() == 0 {
        known
    } else {
        with_rule_methods(
            with_entry_methods(known, entries.drop_last()),
            entries.last().rules@,
        )
    }
}

/// The methods that are examined: the standard ones, then the registered extensions.
pub open spec fn examined(entries: Seq<PathEntry>) -> Seq<http::Method> {
    with_entry_methods(methods::standard(), entries)
}

/// Whether the list holds the method.
fn lists(methods: &Vec<http::Method>, method: &http::Method) -> (found: bool)
    ensures
        found == methods@.contains(*method),
{
    let mut i: usize = 0;
    while i < methods.len()
        invariant
            i <= methods@.len(),
            forall|j: int| 0 <= j < i ==> methods@[j] != *method,
        decreases methods@.len() - i,
    {
        if methods[i] == *method {
            assert(methods@[i as int] == *method);
            return true;
        }
        i = i + 1;
    }
    false
}

fn add_new(known: &mut Vec<http::Method>, list: &Vec<http::Method>)
    ensures
        final(known)@ == with_new(old(known)@, list@),
{
    let ghost start = known@;
    let mut i: usize = 0;
    while i < list.len()
        invariant
            i <= list@.len(),
            known@ == with_new(start, list@.take(i as int)),
        decreases list@.len() - i,
    {
        let ghost some = list@.take(i + 1);
        assert(some.drop_last() =~= list@.take(i as int));
        assert(some.last() == list@[i as int]);
        if !lists(known, &list[i]) {
            known.push(list[i].clone());
        }
        i = i + 1;
    }
    assert(list@.take(i as int) =~= list@);
}

fn add_rule_methods(known: &mut Vec<http::Method>, rules: &Vec<(MethodMatch, RuleId)>)
    ensures
        final(known)@ == with_rule_methods(old(known)@, rules@),
{
    let ghost start = known@;
    let mut i: usize = 0;
    while i < rules.len()
        invariant
            i <= rules@.len(),
            known@ == with_rule_methods(start, rules@.take(i as int)),
        decreases rules@.len() - i,
    {
        let ghost some = rules@.take(i + 1);
        assert(some.drop_last() =~= rules@.take(i as int));
        assert(some.last() == rules@[i as int]);
        if let MethodMatch::OneOf(ms) = &rules[i].0 {
            add_new(known, ms);
        }
        i = i + 1;
    }
    assert(rules@.take(i as int) =~= rules@);
}

fn examined_methods(entries: &Vec<PathEntry>) -> (list: Vec<http::Method>)
    ensures
        list@ == examined(entries@),
{
    let mut known = standard_methods();
    let mut i: usize = 0;
    assert(entries@.take(0) =~= Seq::<PathEntry>::empty());
    while i < entries.len()
        invariant
            i <= entries@.len(),
            known@ == with_entry_methods(methods::standard(), entries@.take(i as int)),
        decreases entries@.len() - i,
    {
        let ghost some = entries@.take(i + 1);
        assert(some.drop_last() =~= entries@.take(i as int));
        assert(some.last() == entries@[i as int]);
        add_rule_methods(&mut known, &entries[i].rules);
        i = i + 1;
    }
    assert(entries@.take(i as int) =~= entries@);
    known
}

/// Whether a pattern has this literal.
pub open spec fn has_literal(shape: Shape, text: Seq<char>) -> bool {
    exists|i: int| 0 <= i < shape.segments.len() && #[trigger] shape.segments[i] == Seg::Literal(text)
}

/// Whether some pattern has this literal.
pub open spec fn taken(entries: Seq<PathEntry>, text: Seq<char>) -> bool {
    exists|i: int| 0 <= i < entries.len() && has_literal((#[trigger] entries[i]).pattern@, text)
}

/// The text with `n` underscores behind it.
pub open spec fn underscored(text: Seq<char>, n: nat) -> Seq<char>
    decreases n,
{
    if n == 0 {
        text
    } else {
        underscored(text, (n - 1) as nat).push('_')
    }
}

/// Whether the text is the first that no pattern has as a literal, of those made from the
/// stem by appending underscores.
pub open spec fn is_capture(entries: Seq<PathEntry>, capture: Seq<char>) -> bool {
    exists|n: nat|
        capture == #[trigger] underscored("_route_guard_probe"@, n) && !taken(entries, capture)
            && forall|m: nat| m < n ==> taken(entries, #[trigger] underscored("_route_guard_probe"@, m))
}

/// The length of the longest literal among the first `n` segments.
spec fn longest_literal(segments: Seq<Seg>) -> nat
    decreases segments.len(),
{
    if segments.len() == 0 {
        0
    } else {
        let before = longest_literal(segments.drop_last());
        match segments.last() {
            Seg::Literal(text) if text.len() > before => text.len(),
            _ => before,
        }
    }
}

spec fn longest(entries: Seq<PathEntry>) -> nat
    decreases entries.len(),
{
    if entries.len() == 0 {
        0
    } else {
        let before = longest(entries.drop_last());
        let last = longest_literal(entries.last().pattern@.segments);
        if last > before {
            last
        } else {
            before
        }
    }
}

proof fn lemma_longest_literal(segments: Seq<Seg>, i: int)
    requires
        0 <= i < segments.len(),
        segments[i] is Literal,
    ensures
        segments[i]->Literal_0.len() <= longest_literal(segments),
    decreases segments.len(),
{
    if i < segments.len() - 1 {
        assert(segments.drop_last()[i] == segments[i]);
        lemma_longest_literal(segments.drop_last(), i);
    }
}

proof fn lemma_longest(entries: Seq<PathEntry>, text: Seq<char>)
    requires
        taken(entries, text),
    ensures
        text.len() <= longest(entries),
    decreases entries.len(),
{
    let i = choose|i: int|
        0 <= i < entries.len() && has_literal((#[trigger] entries[i]).pattern@, text);
    if i == entries.len() - 1 {
        let segments = entries[i].pattern@.segments;
        let k = choose|k: int| 0 <= k < segments.len() && #[trigger] segments[k] == Seg::Literal(text);
        lemma_longest_literal(segments, k);
    } else {
        assert(entries.drop_last()[i] == entries[i]);
        assert(taken(entries.drop_last(), text));
        lemma_longest(entries.drop_last(), text);
    }
}

fn is_taken(entries: &Vec<PathEntry>, text: &String) -> (found: bool)
    ensures
        found == taken(entries@, text@),
{
    let mut i: usize = 0;
    while i < entries.len()
        invariant
            i <= entries@.len(),
            forall|j: int| 0 <= j < i ==> !has_literal((#[trigger] entries@[j]).pattern@, text@),
        decreases entries@.len() - i,
    {
        let pattern = &entries[i].pattern;
        let mut k: usize = 0;
        while k < pattern.segments.len()
            invariant
                k <= pattern.segments@.len(),
                i < entries@.len(),
                *pattern == entries@[i as int].pattern,
                forall|j: int| 0 <= j < k ==> #[trigger] pattern@.segments[j] != Seg::Literal(text@),
            decreases pattern.segments@.len() - k,
        {
            assert(pattern@.segments[k as int] == pattern.segments@[k as int]@);
            if let Segment::Literal(literal) = &pattern.segments[k] {
                if *literal == *text {
                    assert(has_literal(entries@[i as int].pattern@, text@));
                    return true;
                }
            }
            k = k + 1;
        }
        i = i + 1;
    }
    false
}

/// A segment that is no pattern's literal, so that an unconstrained capture does not
/// accidentally hit another literal route.
fn fresh_capture(entries: &Vec<PathEntry>) -> (capture: String)
    ensures
        is_capture(entries@, capture@),
{
    let mut capture = "_route_guard_probe".to_owned();
    let ghost mut n: nat = 0;
    let ghost bound = longest(entries@);
    while is_taken(entries, &capture)
        invariant
            capture@ == underscored("_route_guard_probe"@, n),
            forall|m: nat|
                m < n ==> taken(entries@, #[trigger] underscored("_route_guard_probe"@, m)),
            bound == longest(entries@),
        decreases bound + 1 - capture@.len(),
    {
        proof {
            lemma_longest(entries@, capture@);
        }
        let ghost before = capture@;
        capture.append("_");
        proof {
            reveal_strlit("_");
            assert(capture@ =~= before.push('_'));
            n = n + 1;
        }
    }
    capture
}

/// The list with one more finding: its method joins an alike finding, or it stands last.
pub open spec fn note_gap(list: Seq<Gap>, found: Gap) -> Seq<Gap>
    decreases list.len(),
{
    if list.len() == 0 {
        seq![found]
    } else if list[0].alike(found) {
        list.update(0, Gap { methods: with_new(list[0].methods, found.methods), ..list[0] })
    } else {
        seq![list[0]] + note_gap(list.skip(1), found)
    }
}

/// What is known of one path at which a terminal may leave a gap.
pub ghost struct Site {
    pub slots: Slots,
    pub key: routing::Key,
    pub source: Seq<char>,
    pub path: Seq<char>,
}

/// The rule that the terminal hides from the method at the path.
pub open spec fn hidden_rule(site: Site, method: http::Method) -> Option<RuleId> {
    route_tree::gap_rule(site.slots, vstd::utf8::encode_utf8(site.path), method, site.key)
}

/// The findings for the methods at one path, after those in the list.
pub open spec fn gaps_at(list: Seq<Gap>, site: Site, methods: Seq<http::Method>) -> Seq<Gap>
    decreases methods.len(),
{
    if methods.len() == 0 {
        list
    } else {
        let before = gaps_at(list, site, methods.drop_last());
        match hidden_rule(site, methods.last()) {
            Some(shadowed) => note_gap(
                before,
                Gap {
                    pattern: site.source,
                    example: site.path,
                    methods: seq![methods.last()],
                    shadowed,
                },
            ),
            None => before,
        }
    }
}

/// What the search for gaps looks at.
pub ghost struct Search {
    pub slots: Slots,
    pub entries: Seq<PathEntry>,
    pub sources: Seq<String>,
    pub capture: Seq<char>,
}

/// The path at which entry `i` may hide what entry `j` serves.
pub open spec fn site_of(search: Search, i: int, j: int) -> Option<Site> {
    match overlap(search.entries[i].pattern@, search.entries[j].pattern@, search.capture) {
        Some(path) => Some(
            Site {
                slots: search.slots,
                key: routing::key_of(search.entries[i].pattern@),
                source: search.sources[i]@,
                path,
            },
        ),
        None => None,
    }
}

/// The findings for entry `i` against the first `n` entries, after those in the list.
pub open spec fn gaps_against(list: Seq<Gap>, search: Search, i: int, n: nat) -> Seq<Gap>
    decreases n,
{
    if n == 0 {
        list
    } else {
        let before = gaps_against(list, search, i, (n - 1) as nat);
        match site_of(search, i, n - 1) {
            Some(site) => gaps_at(before, site, examined(search.entries)),
            None => before,
        }
    }
}

/// Whether a rule of the entry is for all methods.
pub open spec fn serves_all(entry: PathEntry) -> bool {
    exists|r: int| 0 <= r < entry.rules@.len() && (#[trigger] entry.rules@[r]).0 is Any
}

/// Whether entry `i` needs no search: its terminal has a rule for all methods, or an
/// earlier entry has the same terminal.
pub open spec fn settled(entries: Seq<PathEntry>, i: int) -> bool {
    ||| exists|j: int|
        0 <= j < entries.len() && (#[trigger] entries[j]).pattern@ == entries[i].pattern@
            && serves_all(entries[j])
    ||| exists|j: int| 0 <= j < i && (#[trigger] entries[j]).pattern@ == entries[i].pattern@
}

/// The findings for the first `n` entries.
pub open spec fn gaps_up_to(search: Search, n: nat) -> Seq<Gap>
    decreases n,
{
    if n == 0 {
        Seq::empty()
    } else {
        let before = gaps_up_to(search, (n - 1) as nat);
        if settled(search.entries, n - 1) {
            before
        } else {
            gaps_against(before, search, n - 1, search.entries.len())
        }
    }
}

/// What diagnostics say.
pub open spec fn gaps_of(list: Seq<MethodGapDiagnostic>) -> Seq<Gap> {
    list.map_values(|d: MethodGapDiagnostic| d@)
}

/// The position of an alike finding, and what noting there means.
proof fn lemma_note_at(list: Seq<Gap>, found: Gap, k: int)
    requires
        0 <= k <= list.len(),
        forall|j: int| 0 <= j < k ==> !(#[trigger] list[j]).alike(found),
        k < list.len() ==> list[k].alike(found),
    ensures
        note_gap(list, found) == if k < list.len() {
            list.update(k, Gap { methods: with_new(list[k].methods, found.methods), ..list[k] })
        } else {
            list.push(found)
        },
    decreases list.len(),
{
    if list.len() > 0 && k > 0 {
        let rest = list.skip(1);
        assert forall|j: int| 0 <= j < k - 1 implies !(#[trigger] rest[j]).alike(found) by {
            assert(rest[j] == list[j + 1]);
        }
        lemma_note_at(rest, found, k - 1);
        assert(!list[0].alike(found));
        if k < list.len() {
            let changed = Gap { methods: with_new(list[k].methods, found.methods), ..list[k] };
            assert(seq![list[0]] + rest.update(k - 1, changed) =~= list.update(k, changed));
        } else {
            assert(seq![list[0]] + rest.push(found) =~= list.push(found));
        }
    } else if list.len() == 0 {
        assert(seq![found] =~= list.push(found));
    }
}

/// Notes a finding.
fn note(
    diagnostics: &mut Vec<MethodGapDiagnostic>,
    source: &String,
    path: &String,
    method: &http::Method,
    shadowed: RuleId,
)
    ensures
        gaps_of(final(diagnostics)@) == note_gap(
            gaps_of(old(diagnostics)@),
            Gap { pattern: source@, example: path@, methods: seq![*method], shadowed },
        ),
{
    let ghost start = diagnostics@;
    let ghost found = Gap { pattern: source@, example: path@, methods: seq![*method], shadowed };
    let mut k: usize = 0;
    while k < diagnostics.len() && !(diagnostics[k].pattern == *source && diagnostics[k].example_path
        == *path && diagnostics[k].shadowed_registration == shadowed)
        invariant
            k <= diagnostics@.len(),
            diagnostics@ == start,
            found == (Gap { pattern: source@, example: path@, methods: seq![*method], shadowed }),
            forall|j: int| 0 <= j < k ==> !(#[trigger] gaps_of(start)[j]).alike(found),
        decreases diagnostics@.len() - k,
    {
        assert(gaps_of(start)[k as int] == start[k as int]@);
        k = k + 1;
    }
    proof {
        assert(gaps_of(start).len() == start.len());
        if k < start.len() {
            assert(gaps_of(start)[k as int] == start[k as int]@);
        }
        lemma_note_at(gaps_of(start), found, k as int);
        reveal_with_fuel(with_new, 2);
        assert(seq![*method].drop_last() =~= Seq::empty());
    }
    if k < diagnostics.len() {
        if !lists(&diagnostics[k].methods, method) {
            let copy = method.clone();
            diagnostics[k].methods.push(copy);
        }
        assert(gaps_of(diagnostics@) =~= note_gap(gaps_of(start), found));
    } else {
        let mut methods: Vec<http::Method> = Vec::new();
        methods.push(method.clone());
        assert(methods@ =~= seq![*method]);
        diagnostics.push(
            MethodGapDiagnostic {
                pattern: source.clone(),
                example_path: path.clone(),
                methods,
                shadowed_registration: shadowed,
            },
        );
        assert(gaps_of(diagnostics@) =~= gaps_of(start).push(found));
    }
}

/// Searches for gaps of a terminal at one path.
fn note_gaps_at(
    diagnostics: &mut Vec<MethodGapDiagnostic>,
    guard: &PathConfusionGuard,
    pattern: &Pattern,
    source: &String,
    path: &String,
    methods: &Vec<http::Method>,
)
    ensures
        gaps_of(final(diagnostics)@) == gaps_at(
            gaps_of(old(diagnostics)@),
            Site {
                slots: guard.router.slots(),
                key: routing::key_of(pattern@),
                source: source@,
                path: path@,
            },
            methods@,
        ),
{
    let ghost start = gaps_of(diagnostics@);
    let ghost site = Site {
        slots: guard.router.slots(),
        key: routing::key_of(pattern@),
        source: source@,
        path: path@,
    };
    let mut i: usize = 0;
    while i < methods.len()
        invariant
            i <= methods@.len(),
            site == (Site {
                slots: guard.router.slots(),
                key: routing::key_of(pattern@),
                source: source@,
                path: path@,
            }),
            gaps_of(diagnostics@) == gaps_at(start, site, methods@.take(i as int)),
        decreases methods@.len() - i,
    {
        let ghost some = methods@.take(i + 1);
        assert(some.drop_last() =~= methods@.take(i as int));
        assert(some.last() == methods@[i as int]);
        if let Some(shadowed) = guard.method_gap(path.as_str(), &methods[i], pattern) {
            note(diagnostics, source, path, &methods[i], shadowed);
        }
        i = i + 1;
    }
    assert(methods@.take(i as int) =~= methods@);
}

/// Whether a rule of the entry is for all methods.
fn has_any(entry: &PathEntry) -> (found: bool)
    ensures
        found == serves_all(*entry),
{
    let mut i: usize = 0;
    while i < entry.rules.len()
        invariant
            i <= entry.rules@.len(),
            forall|r: int| 0 <= r < i ==> !((#[trigger] entry.rules@[r]).0 is Any),
        decreases entry.rules@.len() - i,
    {
        if matches!(&entry.rules[i].0, MethodMatch::Any) {
            assert(entry.rules@[i as int].0 is Any);
            return true;
        }
        i = i + 1;
    }
    false
}

/// Whether an entry needs no search. Co-located method registrations form one terminal,
/// even if parameter names differ. A same-terminal rule for all methods eliminates all
/// method gaps.
fn is_settled(entries: &Vec<PathEntry>, i: usize) -> (done: bool)
    requires
        i < entries@.len(),
    ensures
        done == settled(entries@, i as int),
{
    let mut j: usize = 0;
    while j < entries.len()
        invariant
            j <= entries@.len(),
            i < entries@.len(),
            forall|k: int|
                0 <= k < j ==> !((#[trigger] entries@[k]).pattern@ == entries@[i as int].pattern@
                    && (serves_all(entries@[k]) || k < i)),
        decreases entries@.len() - j,
    {
        if same_pattern(&entries[j].pattern, &entries[i].pattern) && (has_any(&entries[j]) || j
            < i) {
            assert(entries@[j as int].pattern@ == entries@[i as int].pattern@);
            return true;
        }
        j = j + 1;
    }
    false
}

/// Looks for terminals that deny a method which a lower-priority matching path serves.
pub fn method_gaps(
    entries: &Vec<PathEntry>,
    sources: &Vec<String>,
    guard: &PathConfusionGuard,
) -> (diagnostics: Vec<MethodGapDiagnostic>)
    requires
        entries@.len() == sources@.len(),
    ensures
        exists|search: Search| #[trigger]
            gaps_up_to(search, entries@.len()) == gaps_of(diagnostics@) && search.slots
                == guard.router.slots() && search.entries == entries@ && search.sources == sources@
                && is_capture(entries@, search.capture),
{
    let methods = examined_methods(entries);
    let capture = fresh_capture(entries);
    let ghost search = Search {
        slots: guard.router.slots(),
        entries: entries@,
        sources: sources@,
        capture: capture@,
    };
    let mut diagnostics: Vec<MethodGapDiagnostic> = Vec::new();
    assert(gaps_of(diagnostics@) =~= Seq::empty());
    let mut i: usize = 0;
    while i < entries.len()
        invariant
            i <= entries@.len(),
            entries@.len() == sources@.len(),
            methods@ == examined(entries@),
            search == (Search {
                slots: guard.router.slots(),
                entries: entries@,
                sources: sources@,
                capture: capture@,
            }),
            gaps_of(diagnostics@) == gaps_up_to(search, i as nat),
        decreases entries@.len() - i,
    {
        if !is_settled(entries, i) {
            let ghost start = gaps_of(diagnostics@);
            let mut j: usize = 0;
            while j < entries.len()
                invariant
                    j <= entries@.len(),
                    i < entries@.len(),
                    entries@.len() == sources@.len(),
                    methods@ == examined(entries@),
                    search == (Search {
                        slots: guard.router.slots(),
                        entries: entries@,
                        sources: sources@,
                        capture: capture@,
                    }),
                    gaps_of(diagnostics@) == gaps_against(start, search, i as int, j as nat),
                decreases entries@.len() - j,
            {
                if let Some(path) = overlap_path(
                    &entries[i].pattern,
                    &entries[j].pattern,
                    capture.as_str(),
                ) {
                    note_gaps_at(
                        &mut diagnostics,
                        guard,
                        &entries[i].pattern,
                        &sources[i],
                        &path,
                        &methods,
                    );
                }
                j = j + 1;
            }
        }
        i = i + 1;
    }
    diagnostics
}

} // verus!
