//! The rule-id router that owns the path-confusion guard.
//!
//! An authorization layer that maps request paths to per-path rules needs the same two
//! things regardless of which proxy or framework hosts it:
//!
//! - **Rule identity**: every pattern of one registration shares its rule ids, so the
//!   structural guard reasons at rule granularity (movement *within* a subtree is not a
//!   relocation).
//! - **The structural verdict**: deny a request whose path could be routed differently by
//!   a normalizing backend than the rule the raw path matched.
//!
//! [`RuleRouter`] owns the table of rules by id, the default rule, and a
//! [`PathConfusionGuard`] over the segment tree. Pattern strings are lowered into the
//! grammar of the tree at build time; whatever the grammar cannot express (in-segment
//! prefix/suffix params) is a build-time error.

use vstd::prelude::*;
use vstd::string::*;

use crate::anchor;
use crate::anchor::uppercase_present;
use crate::config::{GuardConfig, GuardMode, ResolveError};
use crate::cover::{RuleId, DEFAULT_RULE};
use crate::diagnostics;
use crate::diagnostics::{method_gaps, MethodGapDiagnostic, RawMatch, ResolutionExplanation};
use crate::guard;
use crate::guard::PathConfusionGuard;
use crate::pattern;
use crate::pattern::{lower_matchit, LowerError, Pattern, Seg, Segment, Shape};
use crate::registration;
use crate::registration::{
    copy_methods, Definition, Methods, PathRegistration, Plan, Register, Registration,
};
use crate::route_tree::Router;
use crate::routing::MethodGap;
use crate::slot::{MethodMatch, PathEntry};
use crate::structural;
use crate::structural::{classes_present, enabled_classes, enabled_encodings, ClassSet, Encodings, Lens};
use crate::table;
use crate::table::BuildError;
use crate::text::{decimal_text, quote};

verus! {

/// The outcome of matching a path: which rule applies, and whether it came from a
/// registration or is the default rule.
///
/// The distinction is the route table's coverage made visible: an authorization layer
/// typically logs *which* registration authorized a request, and treats a default
/// fall-through as its own case. Use [`rule`](Self::rule) when only the rule matters.
#[derive(Clone, Copy, Debug, PartialEq, Eq)]
pub enum RuleMatch<'a, R> {
    /// A rule definition matched: its id and rule.
    Matched {
        /// The matched rule's id.
        id: u32,
        /// The matched rule.
        rule: &'a R,
    },
    /// No path decides; the default applies.
    Default {
        /// The default rule.
        rule: &'a R,
    },
}

impl<'a, R> RuleMatch<'a, R> {
    /// The rule to apply: the matched one, or the default.
    #[must_use]
    pub fn rule(&self) -> (rule: &'a R)
        ensures
            rule == match self {
                RuleMatch::Matched { rule, .. } => *rule,
                RuleMatch::Default { rule } => *rule,
            },
    {
        match self {
            RuleMatch::Matched { rule, .. } => rule,
            RuleMatch::Default { rule } => rule,
        }
    }

    /// The matched rule's id, or `None` for the default rule.
    #[must_use]
    pub fn id(&self) -> (id: Option<u32>)
        ensures
            id == match self {
                RuleMatch::Matched { id, .. } => Some(*id),
                RuleMatch::Default { .. } => None,
            },
    {
        match self {
            RuleMatch::Matched { id, .. } => Some(*id),
            RuleMatch::Default { .. } => None,
        }
    }

    /// Whether the default rule applied.
    #[must_use]
    pub fn is_default(&self) -> (default: bool)
        ensures
            default == (self is Default),
    {
        matches!(self, RuleMatch::Default { .. })
    }
}

/// Error building a [`RuleRouter`]. Callers typically map this into their own
/// configuration-error type.
#[derive(Debug)]
pub enum RuleRouterError {
    /// A pattern could not be lowered into the route grammar (e.g. an in-segment
    /// prefix/suffix param, a non-final catch-all, or a conflict with another route).
    Route {
        /// The offending pattern.
        pattern: String,
        /// A human-readable reason.
        reason: &'static str,
    },
    /// A registered pattern is itself non-canonical: it carries a recognized structural
    /// form (`%2F`, `..`, `//`, `;`, or an enabled opt-in form) that the guard treats as
    /// route structure, so a normalizing backend would never present it canonically.
    NonCanonical {
        /// The offending pattern.
        pattern: String,
    },
    /// A registered pattern contains ASCII uppercase though the backend is declared to
    /// fold case. Such a backend resolves it to lowercase, so a differently-cased request
    /// could reach it without the matched rule's checks.
    NonCanonicalCase {
        /// The offending pattern.
        pattern: String,
    },
    /// A rule's method set is empty. It would match no method at all, almost certainly a
    /// construction bug, so it is rejected rather than registered as unreachable.
    EmptyMethodSet {
        /// The registration's first pattern, for attribution.
        pattern: String,
    },
    /// A registration has no patterns, so its rules would be unreachable while still
    /// consuming rule ids.
    EmptyPatternSet,
    /// More rules than there are rule ids: `u32::MAX` is reserved for the default rule.
    TooManyRegistrations,
}

/// What an error says.
pub ghost enum Fault {
    Route { pattern: Seq<char>, reason: Seq<char> },
    NonCanonical(Seq<char>),
    NonCanonicalCase(Seq<char>),
    EmptyMethodSet(Seq<char>),
    EmptyPatternSet,
    TooManyRegistrations,
}

impl View for RuleRouterError {
    type V = Fault;

    open spec fn view(&self) -> Fault {
        match self {
            RuleRouterError::Route { pattern, reason } => Fault::Route {
                pattern: pattern@,
                reason: reason@,
            },
            RuleRouterError::NonCanonical { pattern } => Fault::NonCanonical(pattern@),
            RuleRouterError::NonCanonicalCase { pattern } => Fault::NonCanonicalCase(pattern@),
            RuleRouterError::EmptyMethodSet { pattern } => Fault::EmptyMethodSet(pattern@),
            RuleRouterError::EmptyPatternSet => Fault::EmptyPatternSet,
            RuleRouterError::TooManyRegistrations => Fault::TooManyRegistrations,
        }
    }
}

impl Fault {
    /// The wording of the fault, with the pattern quoted.
    pub open spec fn text(self) -> Seq<char> {
        match self {
            Fault::Route { pattern, reason } => "invalid route pattern "@ + crate::text::quoted(
                pattern,
            ) + ": "@ + reason,
            Fault::NonCanonical(pattern) => "route pattern "@ + crate::text::quoted(pattern)
                + " is non-canonical — it carries a recognized structural form (%2F, .., //, ;, …) the path-confusion guard treats as route structure, so requests to it would always be denied; register the canonical pattern, or set GuardMode::Disabled only if checks are enforced elsewhere"@,
            Fault::NonCanonicalCase(pattern) => "route pattern "@ + crate::text::quoted(pattern)
                + " contains uppercase but the backend is declared case-insensitive; register it in lowercase (the form the backend resolves to)"@,
            Fault::EmptyMethodSet(pattern) => "registration for "@ + crate::text::quoted(pattern)
                + " has an empty method set — it would match no request; list at least one method, or use MethodMatch::Any"@,
            Fault::EmptyPatternSet =>
                "registration has no route patterns — its rule would be unreachable; add at least one pattern or remove the registration"@,
            Fault::TooManyRegistrations =>
                "too many registrations: u32::MAX is reserved as the default rule's id"@,
        }
    }
}

impl RuleRouterError {
    /// The error as a line for a log.
    pub fn to_string(&self) -> (text: String)
        ensures
            text@ == self@.text(),
    {
        match self {
            RuleRouterError::Route { pattern, reason } => {
                let mut text = "invalid route pattern ".to_owned();
                text.append(quote(pattern.as_str()).as_str());
                text.append(": ");
                text.append(reason);
                text
            },
            RuleRouterError::NonCanonical { pattern } => {
                let mut text = "route pattern ".to_owned();
                text.append(quote(pattern.as_str()).as_str());
                text.append(
                    " is non-canonical — it carries a recognized structural form (%2F, .., //, ;, …) the path-confusion guard treats as route structure, so requests to it would always be denied; register the canonical pattern, or set GuardMode::Disabled only if checks are enforced elsewhere",
                );
                text
            },
            RuleRouterError::NonCanonicalCase { pattern } => {
                let mut text = "route pattern ".to_owned();
                text.append(quote(pattern.as_str()).as_str());
                text.append(
                    " contains uppercase but the backend is declared case-insensitive; register it in lowercase (the form the backend resolves to)",
                );
                text
            },
            RuleRouterError::EmptyMethodSet { pattern } => {
                let mut text = "registration for ".to_owned();
                text.append(quote(pattern.as_str()).as_str());
                text.append(
                    " has an empty method set — it would match no request; list at least one method, or use MethodMatch::Any",
                );
                text
            },
            RuleRouterError::EmptyPatternSet =>
                "registration has no route patterns — its rule would be unreachable; add at least one pattern or remove the registration".to_owned(),
            RuleRouterError::TooManyRegistrations =>
                "too many registrations: u32::MAX is reserved as the default rule's id".to_owned(),
        }
    }
}

/// The wording of a lowering failure.
pub open spec fn reason_text(e: LowerError) -> Seq<char> {
    match e {
        LowerError::MissingLeadingSlash => "route pattern must begin with '/'"@,
        LowerError::EmptyInteriorSegment => "route pattern has an empty path segment"@,
        LowerError::PrefixSuffixParam =>
            "in-segment prefix/suffix parameters (e.g. /v{ver}) are not supported"@,
        LowerError::CatchAllNotLast => "a catch-all {*…} must be the final path segment"@,
        LowerError::MalformedParam => "malformed route parameter"@,
        LowerError::InvalidParam => "route parameter must have a non-empty name without '*'"@,
    }
}

/// Map a lowering failure to a stable, human-readable reason.
fn lower_reason(e: &LowerError) -> (reason: &'static str)
    ensures
        reason@ == reason_text(*e),
{
    match e {
        LowerError::MissingLeadingSlash => "route pattern must begin with '/'",
        LowerError::EmptyInteriorSegment => "route pattern has an empty path segment",
        LowerError::PrefixSuffixParam =>
            "in-segment prefix/suffix parameters (e.g. /v{ver}) are not supported",
        LowerError::CatchAllNotLast => "a catch-all {*…} must be the final path segment",
        LowerError::MalformedParam => "malformed route parameter",
        LowerError::InvalidParam => "route parameter must have a non-empty name without '*'",
    }
}

/// What the canonicality check looks for in literals.
pub open spec fn literal_lens(config: GuardConfig) -> Lens {
    Lens {
        enabled: structural::classes_of(config.structural_classes),
        enc: structural::encodings_of(config.structural_classes, config.decode_depth),
    }
}

/// Whether a literal carries an enabled structural form.
pub open spec fn structured(text: Seq<char>, config: GuardConfig) -> bool {
    let lens = literal_lens(config);
    !structural::survey(vstd::utf8::encode_utf8(text), lens).classes.meet(lens.enabled).is_void()
}

/// Whether a literal of the pattern carries an enabled structural form.
pub open spec fn has_structured(shape: Shape, config: GuardConfig) -> bool {
    exists|i: int|
        0 <= i < shape.segments.len() && (#[trigger] shape.segments[i] matches Seg::Literal(text)
            && structured(text, config))
}

/// Whether a literal of the pattern holds an uppercase ASCII letter.
pub open spec fn has_uppercase(shape: Shape) -> bool {
    exists|i: int|
        0 <= i < shape.segments.len() && (#[trigger] shape.segments[i] matches Seg::Literal(text)
            && anchor::has_upper(vstd::utf8::encode_utf8(text)))
}

/// What is wrong with a pattern.
pub open spec fn pattern_fault(pattern: Seq<char>, config: GuardConfig) -> Option<Fault> {
    match pattern::lowered(pattern) {
        Err(e) => Some(Fault::Route { pattern, reason: reason_text(e) }),
        Ok(shape) => if config.mode == GuardMode::Disabled {
            None
        } else if has_structured(shape, config) {
            Some(Fault::NonCanonical(pattern))
        } else if config.case_sensitivity == crate::config::CaseSensitivity::Insensitive
            && has_uppercase(shape) {
            Some(Fault::NonCanonicalCase(pattern))
        } else {
            None
        },
    }
}

/// What is wrong with the first of the patterns that something is wrong with.
pub open spec fn patterns_fault(patterns: Seq<Seq<char>>, config: GuardConfig) -> Option<Fault>
    decreases patterns.len(),
{
    if patterns.len() == 0 {
        None
    } else {
        match patterns_fault(patterns.drop_last(), config) {
            Some(fault) => Some(fault),
            None => pattern_fault(patterns.last(), config),
        }
    }
}

/// Whether a rule is for no method at all.
pub open spec fn has_empty_set<R>(rules: Seq<(Methods, R)>) -> bool {
    exists|i: int|
        0 <= i < rules.len() && (#[trigger] rules[i]).0 == Methods::OneOf(
            Seq::<http::Method>::empty(),
        )
}

/// What is wrong with a registration behind `base` rules.
pub open spec fn plan_fault<R>(plan: Plan<R>, base: nat, config: GuardConfig) -> Option<Fault> {
    if plan.patterns.len() == 0 {
        Some(Fault::EmptyPatternSet)
    } else if has_empty_set(plan.rules) {
        Some(Fault::EmptyMethodSet(plan.patterns[0]))
    } else if base + plan.rules.len() > DEFAULT_RULE {
        Some(Fault::TooManyRegistrations)
    } else {
        patterns_fault(plan.patterns, config)
    }
}

/// The rules of some registrations, in order: a rule's id is its position.
pub open spec fn all_rules<R>(plans: Seq<Plan<R>>) -> Seq<R>
    decreases plans.len(),
{
    if plans.len() == 0 {
        Seq::empty()
    } else {
        all_rules(plans.drop_last()) + plans.last().rules.map_values(|rule: (Methods, R)| rule.1)
    }
}

/// What is wrong with the first of the registrations that something is wrong with.
pub open spec fn plans_fault<R>(plans: Seq<Plan<R>>, config: GuardConfig) -> Option<Fault>
    decreases plans.len(),
{
    if plans.len() == 0 {
        None
    } else {
        match plans_fault(plans.drop_last(), config) {
            Some(fault) => Some(fault),
            None => plan_fault(plans.last(), all_rules(plans.drop_last()).len(), config),
        }
    }
}

/// What one pattern puts into the table, and its text.
#[verifier::ext_equal]
pub ghost struct Row {
    pub text: Seq<char>,
    pub shape: Shape,
    pub opaque: bool,
    pub gap: MethodGap,
    pub rules: Seq<(Methods, RuleId)>,
}

/// The rows of a registration whose first rule has the id `base`.
pub open spec fn plan_rows<R>(plan: Plan<R>, base: nat) -> Seq<Row> {
    Seq::new(
        plan.patterns.len(),
        |j: int|
            Row {
                text: plan.patterns[j],
                shape: pattern::lowered(plan.patterns[j])->Ok_0,
                opaque: plan.opaque,
                gap: plan.gap,
                rules: numbered(plan.rules, base),
            },
    )
}

/// The methods of the rules, with their ids.
pub open spec fn numbered<R>(rules: Seq<(Methods, R)>, base: nat) -> Seq<(Methods, RuleId)> {
    Seq::new(rules.len(), |k: int| (rules[k].0, (base + k) as u32))
}

/// The rows of some registrations.
pub open spec fn all_rows<R>(plans: Seq<Plan<R>>) -> Seq<Row>
    decreases plans.len(),
{
    if plans.len() == 0 {
        Seq::empty()
    } else {
        all_rows(plans.drop_last()) + plan_rows(
            plans.last(),
            all_rules(plans.drop_last()).len(),
        )
    }
}

/// Whether an entry says what the row says.
pub open spec fn writes(entry: PathEntry, row: Row) -> bool {
    &&& entry.pattern@ == row.shape
    &&& entry.opaque == row.opaque
    &&& entry.claim == Some(row.gap)
    &&& registration::rules_of(entry.rules@) == row.rules
}

/// Whether the entries say what the rows say.
pub open spec fn write_all(entries: Seq<PathEntry>, rows: Seq<Row>) -> bool {
    &&& entries.len() == rows.len()
    &&& forall|i: int| 0 <= i < entries.len() ==> writes(#[trigger] entries[i], rows[i])
}

/// Whether the sources are the texts of the rows.
pub open spec fn name_all(sources: Seq<String>, rows: Seq<Row>) -> bool {
    &&& sources.len() == rows.len()
    &&& forall|i: int| 0 <= i < sources.len() ==> (#[trigger] sources[i])@ == rows[i].text
}

/// What a failure to build the tree says.
pub open spec fn build_fault(e: BuildError, rows: Seq<Row>) -> Fault {
    match e {
        BuildError::Conflict { index } => Fault::Route {
            pattern: rows[index as int].text,
            reason: "two routes resolve to the same path"@,
        },
        BuildError::OpaqueTailHasSibling { at } => Fault::Route {
            pattern: at@,
            reason:
                "an exclusive_subtree has a nested route under it; remove the nested route or use subtree"@,
        },
    }
}

/// Map a route-tree build failure to a [`RuleRouterError`], naming the offending pattern:
/// for a conflict, the entry that hit it; for an exclusivity violation, the path prefix
/// where the exclusive tail is rooted.
fn map_build_err(e: BuildError, patterns: &Vec<String>, Ghost(rows): Ghost<Seq<Row>>) -> (error:
    RuleRouterError)
    requires
        name_all(patterns@, rows),
        e matches BuildError::Conflict { index } ==> index < patterns@.len(),
    ensures
        error@ == build_fault(e, rows),
{
    match e {
        BuildError::Conflict { index } => RuleRouterError::Route {
            pattern: patterns[index].clone(),
            reason: "two routes resolve to the same path",
        },
        BuildError::OpaqueTailHasSibling { at } => RuleRouterError::Route {
            pattern: at,
            reason:
                "an exclusive_subtree has a nested route under it; remove the nested route or use subtree",
        },
    }
}

/// A path-to-rule router with rule-granularity identity and the path-confusion guard.
pub struct RuleRouter<R> {
    /// The rules, by id.
    pub rules: Vec<R>,
    /// The rule for paths that no registration decides about.
    pub default: R,
    pub guard: PathConfusionGuard,
    /// What each pattern put into the table.
    pub entries: Vec<PathEntry>,
    /// The text of each pattern.
    pub sources: Vec<String>,
}

/// Whether a value is a request path rather than a complete request-target or URI.
/// `*` is the HTTP asterisk-form target (normally `OPTIONS *`).
pub open spec fn request_path(path: Seq<char>) -> bool {
    &&& path.len() > 0 && path[0] == '/' || path == seq!['*']
    &&& !path.contains('?')
    &&& !path.contains('#')
}

/// Whether a value is a request path rather than a complete request-target or URI.
pub fn is_request_path(path: &str) -> (valid: bool)
    ensures
        valid == request_path(path@),
{
    let chars = crate::text::chars_of(path);
    if chars.len() == 0 {
        return false;
    }
    let star = chars.len() == 1 && chars[0] == '*';
    assert(star <==> path@ =~= seq!['*']);
    if chars[0] != '/' && !star {
        return false;
    }
    let mut i: usize = 0;
    while i < chars.len()
        invariant
            i <= chars@.len(),
            chars@ == path@,
            forall|j: int| 0 <= j < i ==> #[trigger] chars@[j] != '?' && chars@[j] != '#',
        decreases chars@.len() - i,
    {
        if chars[i] == '?' || chars[i] == '#' {
            assert(path@[i as int] == '?' || path@[i as int] == '#');
            assert(path@.contains(path@[i as int]));
            return false;
        }
        i = i + 1;
    }
    true
}

impl<R> RuleRouter<R> {
    /// The router is the one that its entries build.
    pub open spec fn wf(&self) -> bool {
        &&& table::proper_ids(self.entries@)
        &&& table::builds(self.entries@, Ok(self.guard.router))
        &&& self.sources@.len() == self.entries@.len()
        &&& forall|i: int|
            0 <= i < self.entries@.len() ==> pattern::grammatical(
                (#[trigger] self.entries@[i]).pattern@,
            )
    }

    /// Whether the router is the one that the registrations build.
    pub open spec fn realizes(
        &self,
        default: R,
        config: GuardConfig,
        plans: Seq<Plan<R>>,
    ) -> bool {
        &&& self.wf()
        &&& self.default == default
        &&& self.rules@ == all_rules(plans)
        &&& self.guard.configured(config)
        &&& write_all(self.entries@, all_rows(plans))
        &&& name_all(self.sources@, all_rows(plans))
    }

    /// What a raw match means here: a rule, or an error.
    pub open spec fn answer(&self, raw: RawMatch) -> Result<RuleMatch<'_, R>, ResolveError> {
        match raw {
            RawMatch::Matched { id } => if id < self.rules@.len() {
                Ok(RuleMatch::Matched { id, rule: &self.rules@[id as int] })
            } else {
                Err(ResolveError::InvalidRuleId)
            },
            RawMatch::Default => Ok(RuleMatch::Default { rule: &self.default }),
            RawMatch::MethodDenied => Err(ResolveError::MethodNotConfigured),
        }
    }

    /// Starts a route table with an explicit default rule and guard configuration.
    ///
    /// Both required parsing assumptions are supplied through [`GuardConfig::new`].
    /// Add paths with the builder's helpers or [`register`](RuleRouterBuilder::register).
    pub fn builder(default: R, config: GuardConfig) -> (builder: RuleRouterBuilder<R>)
        ensures
            builder.plans() == Seq::<Plan<R>>::empty(),
            builder.default == default,
            builder.config == config,
    {
        let builder = RuleRouterBuilder { registrations: Vec::new(), default, config };
        assert(builder.plans() =~= Seq::<Plan<R>>::empty());
        builder
    }

    /// Resolves `path` in one call: the path-confusion verdict first, then the rule match.
    /// `Err(reason)` means the request must be **denied**: no rule is offered. `Ok` carries
    /// the [`RuleMatch`]: the matched rule, or the default rule for a path that nothing
    /// registered decides about.
    ///
    /// This is the request-handling entry point and always runs the configured checks.
    ///
    /// `path` must be the **request path alone**, never a full request-target. Input is
    /// validated before the guard runs: it must start with `/` (or be the special `*`
    /// request target) and must not contain `?` or `#`.
    pub fn resolve(&self, path: &str, method: &http::Method) -> (resolved: Result<
        RuleMatch<'_, R>,
        ResolveError,
    >)
        requires
            self.wf(),
        ensures
            !request_path(path@) ==> resolved == Err::<RuleMatch<'_, R>, ResolveError>(
                ResolveError::InvalidPathInput,
            ),
            request_path(path@) ==> match self.guard.verdict(path@, *method) {
                guard::Verdict::Pass => resolved == self.answer(
                    self.guard.raw(path.spec_bytes(), *method),
                ),
                guard::Verdict::Deny(error) => resolved == Err::<RuleMatch<'_, R>, ResolveError>(
                    error,
                ),
                guard::Verdict::Probe(label) => resolved matches Err(ResolveError::Probe(name))
                    && name@ == label,
            },
    {
        if !is_request_path(path) {
            return Err(ResolveError::InvalidPathInput);
        }
        match self.guard.checked(path, method) {
            Err(reason) => Err(reason),
            Ok(raw) => self.rule_for(raw),
        }
    }

    /// The rule of a raw match.
    fn rule_for(&self, raw: RawMatch) -> (resolved: Result<RuleMatch<'_, R>, ResolveError>)
        ensures
            resolved == self.answer(raw),
    {
        match raw {
            RawMatch::Matched { id } => if (id as usize) < self.rules.len() {
                Ok(RuleMatch::Matched { id, rule: &self.rules[id as usize] })
            } else {
                Err(ResolveError::InvalidRuleId)
            },
            RawMatch::Default => Ok(RuleMatch::Default { rule: &self.default }),
            RawMatch::MethodDenied => Err(ResolveError::MethodNotConfigured),
        }
    }

    /// The rule that the path selects as it is written. Nothing is checked: request
    /// handling must use [`resolve`](Self::resolve).
    pub fn matched_rule(&self, path: &str, method: &http::Method) -> (resolved: Result<
        RuleMatch<'_, R>,
        ResolveError,
    >)
        ensures
            resolved == self.answer(self.guard.raw(path.spec_bytes(), *method)),
    {
        self.rule_for(self.guard.router.identity(path.as_bytes(), method))
    }

    /// Inspects raw path matching for diagnostics, without checking ambiguity.
    ///
    /// Use this to log which rule the original spelling selects, including on a denied
    /// request. A successful inspection is **not** permission to authorize or forward:
    /// request handling must use [`resolve`](Self::resolve).
    pub fn inspect_raw(&self, path: &str, method: &http::Method) -> (inspected: Result<
        RawMatch,
        ResolveError,
    >)
        ensures
            inspected == if !request_path(path@) {
                Err::<RawMatch, ResolveError>(ResolveError::InvalidPathInput)
            } else if self.answer(self.guard.raw(path.spec_bytes(), *method)) == Err::<
                RuleMatch<'_, R>,
                ResolveError,
            >(ResolveError::InvalidRuleId) {
                Err::<RawMatch, ResolveError>(ResolveError::InvalidRuleId)
            } else {
                Ok::<RawMatch, ResolveError>(self.guard.raw(path.spec_bytes(), *method))
            },
    {
        if !is_request_path(path) {
            return Err(ResolveError::InvalidPathInput);
        }
        let raw = self.guard.router.identity(path.as_bytes(), method);
        match raw {
            RawMatch::Matched { id } if (id as usize) >= self.rules.len() => Err(
                ResolveError::InvalidRuleId,
            ),
            _ => Ok(raw),
        }
    }

    /// Explains which check denies a path, and over which region a structural denial
    /// reasons.
    ///
    /// No rule is returned: request handling must use [`resolve`](Self::resolve).
    pub fn explain(&self, path: &str, method: &http::Method) -> (explained: Result<
        ResolutionExplanation,
        ResolveError,
    >)
        requires
            self.wf(),
        ensures
            match explained {
                Err(error) => {
                    ||| !request_path(path@) && error == ResolveError::InvalidPathInput
                    ||| request_path(path@) && error == ResolveError::InvalidRuleId && self.answer(
                        self.guard.raw(path.spec_bytes(), *method),
                    ) == Err::<RuleMatch<'_, R>, ResolveError>(ResolveError::InvalidRuleId)
                },
                Ok(explanation) => {
                    &&& request_path(path@)
                    &&& self.answer(self.guard.raw(path.spec_bytes(), *method)) != Err::<
                        RuleMatch<'_, R>,
                        ResolveError,
                    >(ResolveError::InvalidRuleId)
                    &&& explanation.raw_match == self.guard.raw(path.spec_bytes(), *method)
                    &&& self.denies(explanation.denial, path@, *method)
                    &&& match explanation.structural {
                        Some(region) => {
                            &&& explanation.denial matches Some(ResolveError::StructuralForm(_))
                            &&& self.guard.anchors(path.spec_bytes())
                            &&& vstd::utf8::encode_utf8(region.anchor@) == self.guard.anchor(
                                path.spec_bytes(),
                            )
                            &&& region.outcomes() =~= self.guard.reachable(
                                path.spec_bytes(),
                                *method,
                            )
                            &&& region.sorted()
                        },
                        None => !(explanation.denial matches Some(ResolveError::StructuralForm(_))
                            && self.guard.anchors(path.spec_bytes())),
                    }
                },
            },
    {
        let raw_match = match self.inspect_raw(path, method) {
            Ok(raw_match) => raw_match,
            Err(error) => {
                return Err(error);
            },
        };
        let denial = match self.resolve(path, method) {
            Ok(_) => None,
            Err(error) => Some(error),
        };
        let structural = match denial {
            Some(ResolveError::StructuralForm(_)) => self.guard.structural_explanation(path, method),
            _ => None,
        };
        Ok(ResolutionExplanation { raw_match, denial, structural })
    }

    /// Whether this is why a request path is denied, `None` where it is not.
    pub open spec fn denies(
        &self,
        denial: Option<ResolveError>,
        path: Seq<char>,
        method: http::Method,
    ) -> bool {
        match self.guard.verdict(path, method) {
            guard::Verdict::Pass => denial == match self.answer(
                self.guard.raw(vstd::utf8::encode_utf8(path), method),
            ) {
                Ok(_) => None,
                Err(error) => Some(error),
            },
            guard::Verdict::Deny(error) => denial == Some(error),
            guard::Verdict::Probe(label) => denial matches Some(ResolveError::Probe(name)) && name@
                == label,
        }
    }

    /// Looks for paths that deny a method which a lower-priority matching path serves.
    ///
    /// The findings are advisory. They do not change how requests resolve.
    pub fn diagnostics(&self) -> (findings: Vec<MethodGapDiagnostic>)
        requires
            self.wf(),
        ensures
            exists|search: diagnostics::Search| #[trigger]
                diagnostics::gaps_up_to(search, self.entries@.len()) == diagnostics::gaps_of(
                    findings@,
                ) && search.slots == self.guard.router.slots() && search.entries == self.entries@
                    && search.sources == self.sources@ && diagnostics::is_capture(
                    self.entries@,
                    search.capture,
                ),
    {
        method_gaps(&self.entries, &self.sources, &self.guard)
    }

    /// A short description for logs: how many rules there are.
    pub fn describe(&self) -> (text: String)
        ensures
            text@ == "RuleRouter { rules: "@ + crate::text::decimal(self.rules@.len()) + ", .. }"@,
    {
        let mut text = "RuleRouter { rules: ".to_owned();
        text.append(decimal_text(self.rules.len() as u64).as_str());
        text.append(", .. }");
        text
    }

    /// The anchor that the structural verdict reasons over for `path`: the prefix that no
    /// modeled transform may rewrite.
    pub fn structural_anchor<'p>(&self, path: &'p str) -> (anchor: Option<&'p str>)
        ensures
            match anchor {
                Some(anchor) => self.guard.anchors(path.spec_bytes()) && anchor.spec_bytes()
                    == self.guard.anchor(path.spec_bytes()),
                None => !self.guard.anchors(path.spec_bytes()),
            },
    {
        self.guard.structural_anchor(path)
    }
}

/// A route table under construction.
///
/// Create with [`RuleRouter::builder`]. Configuration and the default are required up
/// front, so every builder can be finished or extended in a loop.
pub struct RuleRouterBuilder<R> {
    pub registrations: Vec<Definition<R>>,
    pub default: R,
    pub config: GuardConfig,
}

impl<R> RuleRouterBuilder<R> {
    /// What has been registered.
    pub open spec fn plans(&self) -> Seq<Plan<R>> {
        registration::plans_of::<R, Definition<R>>(self.registrations@)
    }

    /// Adds one registration.
    #[must_use]
    pub fn register<G: Register<R>>(self, registration: G) -> (builder: Self)
        ensures
            builder.plans() == self.plans().push(registration@),
            builder.default == self.default,
            builder.config == self.config,
    {
        let ghost before = self.registrations@;
        let ghost added = registration@;
        let mut registrations = self.registrations;
        registrations.push(registration.define());
        let builder = RuleRouterBuilder {
            registrations,
            default: self.default,
            config: self.config,
        };
        assert(builder.plans() =~= registration::plans_of::<R, Definition<R>>(before).push(added));
        builder
    }

    /// Adds registrations in order, preserving each one's identity.
    #[must_use]
    pub fn register_all<G: Register<R>>(self, registrations: Vec<G>) -> (builder: Self)
        ensures
            builder.plans() == self.plans() + registration::plans_of::<R, G>(registrations@),
            builder.default == self.default,
            builder.config == self.config,
    {
        let ghost start = self;
        let ghost all = registrations@;
        let ghost plans = registration::plans_of::<R, G>(all);
        let mut builder = self;
        assert(start.plans() + plans.take(0) =~= start.plans());
        for registration in iter: registrations
            invariant
                iter.seq() == all,
                plans == registration::plans_of::<R, G>(all),
                builder.plans() == start.plans() + plans.take(iter.index()),
                builder.default == start.default,
                builder.config == start.config,
        {
            assert(plans.take(iter.index() + 1) =~= plans.take(iter.index()).push(
                registration@,
            ));
            builder = builder.register(registration);
            assert(builder.plans() =~= start.plans() + plans.take(iter.index() + 1));
        }
        assert(plans.take(plans.len() as int) =~= plans);
        builder
    }

    /// Registers an exact path or whole-segment pattern, such as `/users/{id}`.
    /// Use [`subtree`](Self::subtree) to cover descendants too.
    #[must_use]
    pub fn route(self, pattern: &str, rule: R) -> (builder: Self)
        ensures
            builder.plans() == self.plans().push(
                single_plan(seq![pattern@], false, rule),
            ),
            builder.default == self.default,
            builder.config == self.config,
    {
        self.register(Registration::route(pattern, rule))
    }

    /// Registers a prefix and its descendants under one rule identity.
    ///
    /// `/files` covers `/files`, `/files/`, and descendants. A trailing slash in the input
    /// excludes the bare path. More-specific registrations take precedence.
    #[must_use]
    pub fn subtree(self, path: &str, rule: R) -> (builder: Self)
        ensures
            builder.plans() == self.plans().push(
                single_plan(registration::subtree_texts(path@), false, rule),
            ),
            builder.default == self.default,
            builder.config == self.config,
    {
        self.register(Registration::subtree(path, rule))
    }

    /// Registers a subtree and forbids more-specific paths beneath it.
    ///
    /// Exclusivity is checked at build time; request-time checks are the same as
    /// [`subtree`](Self::subtree).
    #[must_use]
    pub fn exclusive_subtree(self, path: &str, rule: R) -> (builder: Self)
        ensures
            builder.plans() == self.plans().push(
                single_plan(registration::subtree_texts(path@), true, rule),
            ),
            builder.default == self.default,
            builder.config == self.config,
    {
        self.register(Registration::exclusive_subtree(path, rule))
    }

    /// Registers one path with a table of rules by method.
    #[must_use]
    pub fn register_path<F: FnOnce(PathRegistration<R>) -> PathRegistration<R>>(
        self,
        path: &str,
        define: F,
    ) -> (builder: Self)
        requires
            forall|start: PathRegistration<R>|
                start@ == path_plan::<R>(seq![path@], false) ==> #[trigger] define.requires(
                    (start,),
                ),
        ensures
            exists|start: PathRegistration<R>, end: PathRegistration<R>| #[trigger]
                define.ensures((start,), end) && start@ == path_plan::<R>(seq![path@], false)
                    && builder.plans() == self.plans().push(end@),
            builder.default == self.default,
            builder.config == self.config,
    {
        let registration = PathRegistration::path(path);
        self.register(define(registration))
    }

    /// Registers a prefix and its descendants with a table of rules by method.
    #[must_use]
    pub fn register_subtree<F: FnOnce(PathRegistration<R>) -> PathRegistration<R>>(
        self,
        path: &str,
        define: F,
    ) -> (builder: Self)
        requires
            forall|start: PathRegistration<R>|
                start@ == path_plan::<R>(registration::subtree_texts(path@), false)
                    ==> #[trigger] define.requires((start,)),
        ensures
            exists|start: PathRegistration<R>, end: PathRegistration<R>| #[trigger]
                define.ensures((start,), end) && start@ == path_plan::<R>(
                    registration::subtree_texts(path@),
                    false,
                ) && builder.plans() == self.plans().push(end@),
            builder.default == self.default,
            builder.config == self.config,
    {
        let registration = PathRegistration::subtree(path);
        self.register(define(registration))
    }

    /// Registers a subtree with a table of rules by method, and forbids more-specific
    /// paths beneath it.
    #[must_use]
    pub fn register_exclusive_subtree<F: FnOnce(PathRegistration<R>) -> PathRegistration<R>>(
        self,
        path: &str,
        define: F,
    ) -> (builder: Self)
        requires
            forall|start: PathRegistration<R>|
                start@ == path_plan::<R>(registration::subtree_texts(path@), true)
                    ==> #[trigger] define.requires((start,)),
        ensures
            exists|start: PathRegistration<R>, end: PathRegistration<R>| #[trigger]
                define.ensures((start,), end) && start@ == path_plan::<R>(
                    registration::subtree_texts(path@),
                    true,
                ) && builder.plans() == self.plans().push(end@),
            builder.default == self.default,
            builder.config == self.config,
    {
        let registration = PathRegistration::exclusive_subtree(path);
        self.register(define(registration))
    }

    /// Validates the registrations and constructs the router.
    pub fn build(self) -> (built: Result<RuleRouter<R>, RuleRouterError>)
        ensures
            constructs(built, self.default, self.config, self.plans()),
    {
        RuleRouter::from_registrations(self.default, self.config, self.registrations)
    }
}

/// Patterns with one rule for all methods, where other methods select the default.
pub open spec fn single_plan<R>(patterns: Seq<Seq<char>>, opaque: bool, rule: R) -> Plan<R> {
    Plan { patterns, opaque, gap: MethodGap::Default, rules: seq![(Methods::Any, rule)] }
}

/// Patterns without a rule.
pub open spec fn path_plan<R>(patterns: Seq<Seq<char>>, opaque: bool) -> Plan<R> {
    Plan { patterns, opaque, gap: MethodGap::Deny, rules: Seq::empty() }
}

/// Whether a result is what building a router from the registrations gives: the first
/// fault of a registration, else the failure of the tree, else the router.
pub open spec fn constructs<R>(
    built: Result<RuleRouter<R>, RuleRouterError>,
    default: R,
    config: GuardConfig,
    plans: Seq<Plan<R>>,
) -> bool {
    match plans_fault(plans, config) {
        Some(fault) => built matches Err(e) && e@ == fault,
        None => match built {
            Ok(router) => router.realizes(default, config, plans),
            Err(e) => exists|entries: Seq<PathEntry>, failure: BuildError| #[trigger]
                table::builds(entries, Err(failure)) && write_all(entries, all_rows(plans)) && e@
                    == build_fault(failure, all_rows(plans)),
        },
    }
}

/// Whether a literal carries an enabled structural form.
fn is_structured(
    literal: &str,
    enabled: ClassSet,
    enc: Encodings,
    Ghost(config): Ghost<GuardConfig>,
) -> (found: bool)
    requires
        enabled == literal_lens(config).enabled,
        enc == literal_lens(config).enc,
    ensures
        found == structured(literal@, config),
{
    !classes_present(literal, enabled, enc).intersect(enabled).is_empty()
}

/// Lowers a pattern and checks that it is canonical: a registered pattern that itself
/// carries a structural byte in a literal segment (or, under a case-folding backend,
/// uppercase) is not, since the backend would never present it as written. Parameter
/// names are route metadata, not request-path bytes, so the lowered literals are
/// inspected rather than the source.
fn check_pattern(pattern: &String, config: &GuardConfig) -> (checked: Result<
    Pattern,
    RuleRouterError,
>)
    ensures
        match checked {
            Ok(lowered) => pattern_fault(pattern@, *config) is None && pattern::lowered(pattern@)
                == Ok::<Shape, LowerError>(lowered@),
            Err(e) => pattern_fault(pattern@, *config) == Some(e@),
        },
{
    let lowered = match lower_matchit(pattern.as_str()) {
        Ok(lowered) => lowered,
        Err(e) => {
            return Err(
                RuleRouterError::Route { pattern: pattern.clone(), reason: lower_reason(&e) },
            );
        },
    };
    if matches!(config.mode, GuardMode::Disabled) {
        return Ok(lowered);
    }
    let enabled = enabled_classes(&config.structural_classes);
    let enc = enabled_encodings(&config.structural_classes, config.decode_depth);
    let ghost shape = lowered@;
    let mut i: usize = 0;
    while i < lowered.segments.len()
        invariant
            i <= lowered.segments@.len(),
            shape == lowered@,
            pattern::lowered(pattern@) == Ok::<Shape, LowerError>(shape),
            config.mode != GuardMode::Disabled,
            enabled == literal_lens(*config).enabled,
            enc == literal_lens(*config).enc,
            forall|j: int|
                0 <= j < i ==> !(#[trigger] shape.segments[j] matches Seg::Literal(text)
                    && structured(text, *config)),
        decreases lowered.segments@.len() - i,
    {
        assert(shape.segments[i as int] == lowered.segments@[i as int]@);
        if let Segment::Literal(literal) = &lowered.segments[i] {
            if is_structured(literal.as_str(), enabled, enc, Ghost(*config)) {
                assert(has_structured(shape, *config));
                return Err(RuleRouterError::NonCanonical { pattern: pattern.clone() });
            }
        }
        i = i + 1;
    }
    assert(!has_structured(shape, *config));
    if !config.case_sensitivity.is_insensitive() {
        return Ok(lowered);
    }
    let mut k: usize = 0;
    while k < lowered.segments.len()
        invariant
            k <= lowered.segments@.len(),
            shape == lowered@,
            pattern::lowered(pattern@) == Ok::<Shape, LowerError>(shape),
            config.mode != GuardMode::Disabled,
            config.case_sensitivity == crate::config::CaseSensitivity::Insensitive,
            !has_structured(shape, *config),
            forall|j: int|
                0 <= j < k ==> !(#[trigger] shape.segments[j] matches Seg::Literal(text)
                    && anchor::has_upper(vstd::utf8::encode_utf8(text))),
        decreases lowered.segments@.len() - k,
    {
        assert(shape.segments[k as int] == lowered.segments@[k as int]@);
        if let Segment::Literal(literal) = &lowered.segments[k] {
            if uppercase_present(literal.as_str().as_bytes()) {
                assert(has_uppercase(shape));
                return Err(RuleRouterError::NonCanonicalCase { pattern: pattern.clone() });
            }
        }
        k = k + 1;
    }
    Ok(lowered)
}

/// Whether a rule is for no method at all.
fn empty_set_present<R>(rules: &Vec<(MethodMatch, R)>) -> (found: bool)
    ensures
        found == has_empty_set(registration::rules_of(rules@)),
{
    let ghost views = registration::rules_of(rules@);
    let mut i: usize = 0;
    while i < rules.len()
        invariant
            i <= rules@.len(),
            views == registration::rules_of(rules@),
            forall|j: int|
                0 <= j < i ==> (#[trigger] views[j]).0 != Methods::OneOf(
                    Seq::<http::Method>::empty(),
                ),
        decreases rules@.len() - i,
    {
        assert(views[i as int].0 == registration::methods_of(rules@[i as int].0));
        if let MethodMatch::OneOf(ms) = &rules[i].0 {
            if ms.len() == 0 {
                assert(ms@ =~= Seq::<http::Method>::empty());
                return true;
            }
        }
        i = i + 1;
    }
    false
}

/// The methods of the rules, with ids from `base` on.
fn number_rules<R>(rules: &Vec<(MethodMatch, R)>, base: u32) -> (list: Vec<(MethodMatch, RuleId)>)
    requires
        base + rules@.len() <= DEFAULT_RULE,
    ensures
        registration::rules_of(list@) == numbered(registration::rules_of(rules@), base as nat),
        forall|k: int| 0 <= k < list@.len() ==> (#[trigger] list@[k]).1 != DEFAULT_RULE,
{
    let mut list: Vec<(MethodMatch, RuleId)> = Vec::new();
    let mut i: usize = 0;
    while i < rules.len()
        invariant
            i <= rules@.len(),
            base + rules@.len() <= DEFAULT_RULE,
            list@.len() == i,
            forall|k: int|
                0 <= k < i ==> registration::methods_of((#[trigger] list@[k]).0)
                    == registration::methods_of(rules@[k].0) && list@[k].1 == (base + k) as u32
                    && list@[k].1 != DEFAULT_RULE,
        decreases rules@.len() - i,
    {
        let id: u32 = base + i as u32;
        list.push((copy_methods(&rules[i].0), id));
        i = i + 1;
    }
    assert(registration::rules_of(list@) =~= numbered(
        registration::rules_of(rules@),
        base as nat,
    ));
    list
}

/// A copy of the methods and ids of some rules.
fn copy_rules(rules: &Vec<(MethodMatch, RuleId)>) -> (list: Vec<(MethodMatch, RuleId)>)
    ensures
        registration::rules_of(list@) == registration::rules_of(rules@),
        list@.len() == rules@.len(),
        forall|k: int| 0 <= k < list@.len() ==> (#[trigger] list@[k]).1 == rules@[k].1,
{
    let mut list: Vec<(MethodMatch, RuleId)> = Vec::new();
    let mut i: usize = 0;
    while i < rules.len()
        invariant
            i <= rules@.len(),
            list@.len() == i,
            forall|k: int|
                0 <= k < i ==> registration::methods_of((#[trigger] list@[k]).0)
                    == registration::methods_of(rules@[k].0) && list@[k].1 == rules@[k].1,
        decreases rules@.len() - i,
    {
        list.push((copy_methods(&rules[i].0), rules[i].1));
        i = i + 1;
    }
    assert(registration::rules_of(list@) =~= registration::rules_of(rules@));
    list
}

/// The table of a registration: an entry for each pattern.
fn list_entries(
    patterns: &Vec<String>,
    opaque: bool,
    gap: MethodGap,
    rules: &Vec<(MethodMatch, RuleId)>,
    config: &GuardConfig,
) -> (listed: Result<Vec<PathEntry>, RuleRouterError>)
    requires
        forall|k: int| 0 <= k < rules@.len() ==> (#[trigger] rules@[k]).1 != DEFAULT_RULE,
    ensures
        match listed {
            Err(e) => patterns_fault(registration::texts(patterns@), *config) == Some(e@),
            Ok(entries) => {
                &&& patterns_fault(registration::texts(patterns@), *config) is None
                &&& entries@.len() == patterns@.len()
                &&& forall|j: int|
                    0 <= j < entries@.len() ==> writes(
                        #[trigger] entries@[j],
                        Row {
                            text: patterns@[j]@,
                            shape: pattern::lowered(patterns@[j]@)->Ok_0,
                            opaque,
                            gap,
                            rules: registration::rules_of(rules@),
                        },
                    )
                &&& sound_entries(entries@)
            },
        },
{
    let mut entries: Vec<PathEntry> = Vec::new();
    let ghost all = registration::texts(patterns@);
    let mut i: usize = 0;
    while i < patterns.len()
        invariant
            i <= patterns@.len(),
            all == registration::texts(patterns@),
            patterns_fault(all.take(i as int), *config) is None,
            entries@.len() == i,
            forall|k: int| 0 <= k < rules@.len() ==> (#[trigger] rules@[k]).1 != DEFAULT_RULE,
            forall|j: int|
                0 <= j < i ==> writes(
                    #[trigger] entries@[j],
                    Row {
                        text: patterns@[j]@,
                        shape: pattern::lowered(patterns@[j]@)->Ok_0,
                        opaque,
                        gap,
                        rules: registration::rules_of(rules@),
                    },
                ),
            sound_entries(entries@),
        decreases patterns@.len() - i,
    {
        let ghost some = all.take(i + 1);
        assert(some.drop_last() =~= all.take(i as int));
        assert(some.last() == patterns@[i as int]@);
        match check_pattern(&patterns[i], config) {
            Err(e) => {
                proof {
                    lemma_patterns_fault(all, i + 1, *config);
                }
                return Err(e);
            },
            Ok(lowered) => {
                proof {
                    pattern::lowered_is_grammatical(patterns@[i as int]@);
                }
                entries.push(
                    PathEntry {
                        pattern: lowered,
                        opaque,
                        claim: Some(gap),
                        rules: copy_rules(rules),
                    },
                );
            },
        }
        i = i + 1;
    }
    assert(all.take(i as int) =~= all);
    Ok(entries)
}

/// Whether no entry has the id of the default, and every pattern is grammatical.
pub open spec fn sound_entries(entries: Seq<PathEntry>) -> bool {
    &&& table::proper_ids(entries)
    &&& forall|i: int|
        0 <= i < entries.len() ==> pattern::grammatical((#[trigger] entries[i]).pattern@)
}

/// The first fault of some patterns is the first fault of all.
proof fn lemma_patterns_fault(patterns: Seq<Seq<char>>, n: int, config: GuardConfig)
    requires
        0 <= n <= patterns.len(),
        patterns_fault(patterns.take(n), config) is Some,
    ensures
        patterns_fault(patterns, config) == patterns_fault(patterns.take(n), config),
    decreases patterns.len(),
{
    if n == patterns.len() {
        assert(patterns.take(n) =~= patterns);
    } else {
        assert(patterns.drop_last().take(n) =~= patterns.take(n));
        lemma_patterns_fault(patterns.drop_last(), n, config);
    }
}

/// The first fault of some registrations is the first fault of all.
proof fn lemma_plans_fault<R>(plans: Seq<Plan<R>>, n: int, config: GuardConfig)
    requires
        0 <= n <= plans.len(),
        plans_fault(plans.take(n), config) is Some,
    ensures
        plans_fault(plans, config) == plans_fault(plans.take(n), config),
    decreases plans.len(),
{
    if n == plans.len() {
        assert(plans.take(n) =~= plans);
    } else {
        assert(plans.drop_last().take(n) =~= plans.take(n));
        lemma_plans_fault(plans.drop_last(), n, config);
    }
}

/// Entries and sources of one registration more.
proof fn lemma_more_rows<R>(
    plans: Seq<Plan<R>>,
    n: int,
    entries: Seq<PathEntry>,
    sources: Seq<String>,
    more: Seq<PathEntry>,
    names: Seq<String>,
    rules: Seq<(MethodMatch, RuleId)>,
)
    requires
        0 <= n < plans.len(),
        write_all(entries, all_rows(plans.take(n))),
        name_all(sources, all_rows(plans.take(n))),
        sound_entries(entries),
        sound_entries(more),
        registration::texts(names) == plans[n].patterns,
        more.len() == names.len(),
        registration::rules_of(rules) == numbered(
            plans[n].rules,
            all_rules(plans.take(n)).len(),
        ),
        forall|j: int|
            0 <= j < more.len() ==> writes(
                #[trigger] more[j],
                Row {
                    text: names[j]@,
                    shape: pattern::lowered(names[j]@)->Ok_0,
                    opaque: plans[n].opaque,
                    gap: plans[n].gap,
                    rules: registration::rules_of(rules),
                },
            ),
    ensures
        write_all(entries + more, all_rows(plans.take(n + 1))),
        name_all(sources + names, all_rows(plans.take(n + 1))),
        sound_entries(entries + more),
{
    let some = plans.take(n + 1);
    assert(some.drop_last() =~= plans.take(n));
    assert(some.last() == plans[n]);
    let old = all_rows(plans.take(n));
    let new = plan_rows(plans[n], all_rules(plans.take(n)).len());
    assert(all_rows(some) == old + new);
    assert(plans[n].patterns.len() == names.len());
    assert forall|i: int| 0 <= i < entries.len() + more.len() implies writes(
        #[trigger] (entries + more)[i],
        all_rows(some)[i],
    ) by {
        if i < entries.len() {
            assert((entries + more)[i] == entries[i]);
        } else {
            let j = i - entries.len();
            assert((entries + more)[i] == more[j]);
            assert(plans[n].patterns[j] == names[j]@);
        }
    }
    assert forall|i: int| 0 <= i < sources.len() + names.len() implies (#[trigger] (sources
        + names)[i])@ == all_rows(some)[i].text by {
        if i < sources.len() {
            assert((sources + names)[i] == sources[i]);
        } else {
            let j = i - sources.len();
            assert((sources + names)[i] == names[j]);
            assert(plans[n].patterns[j] == names[j]@);
        }
    }
    let both = entries + more;
    assert forall|e: int, r: int|
        0 <= e < both.len() && 0 <= r < both[e].rules@.len() implies (
    #[trigger] both[e].rules@[r]).1 != DEFAULT_RULE by {
        if e < entries.len() {
            assert(both[e] == entries[e]);
            assert(entries[e].rules@[r].1 != DEFAULT_RULE);
        } else {
            assert(both[e] == more[e - entries.len()]);
            assert(more[e - entries.len()].rules@[r].1 != DEFAULT_RULE);
        }
    }
    assert forall|i: int| 0 <= i < both.len() implies pattern::grammatical(
        (#[trigger] both[i]).pattern@,
    ) by {
        if i < entries.len() {
            assert(both[i] == entries[i]);
        } else {
            assert(both[i] == more[i - entries.len()]);
        }
    }
}

/// Appends the rules themselves.
fn append_rules<R>(rules: &mut Vec<R>, more: Vec<(MethodMatch, R)>)
    ensures
        final(rules)@ == old(rules)@ + registration::rules_of(more@).map_values(
            |rule: (Methods, R)| rule.1,
        ),
{
    let ghost start = rules@;
    let ghost all = more@;
    let ghost added = registration::rules_of(all).map_values(|rule: (Methods, R)| rule.1);
    assert(start + added.take(0) =~= start);
    for rule in iter: more
        invariant
            iter.seq() == all,
            added == registration::rules_of(all).map_values(|rule: (Methods, R)| rule.1),
            rules@ == start + added.take(iter.index()),
    {
        assert(added[iter.index()] == rule.1);
        assert(added.take(iter.index() + 1) =~= added.take(iter.index()).push(rule.1));
        rules.push(rule.1);
        assert(rules@ =~= start + added.take(iter.index() + 1));
    }
    assert(added.take(added.len() as int) =~= added);
}

impl<R> RuleRouter<R> {
    /// Builds a route table from registrations, in order.
    ///
    /// This is equivalent to `builder(default, config).register_all(registrations).build()`.
    ///
    /// Rejects invalid or conflicting patterns, empty pattern or method sets, and nested
    /// paths beneath an exclusive subtree. When checks are enabled, also rejects
    /// structural forms in literals and uppercase literals under case-insensitive
    /// parsing.
    pub fn from_registrations<G: Register<R>>(
        default: R,
        config: GuardConfig,
        registrations: Vec<G>,
    ) -> (built: Result<Self, RuleRouterError>)
        ensures
            constructs(built, default, config, registration::plans_of::<R, G>(registrations@)),
    {
        let mut entries: Vec<PathEntry> = Vec::new();
        // Patterns parallel to `entries`, kept so that a tree build failure can be
        // attributed to the pattern that caused it.
        let mut sources: Vec<String> = Vec::new();
        let mut rules: Vec<R> = Vec::new();
        let ghost all = registrations@;
        let ghost plans = registration::plans_of::<R, G>(all);
        assert(plans.take(0).len() == 0);
        assert(rules@ =~= all_rules(plans.take(0)));
        for registration in iter: registrations
            invariant
                iter.seq() == all,
                plans == registration::plans_of::<R, G>(all),
                plans_fault(plans.take(iter.index()), config) is None,
                rules@ == all_rules(plans.take(iter.index())),
                rules@.len() <= DEFAULT_RULE,
                write_all(entries@, all_rows(plans.take(iter.index()))),
                name_all(sources@, all_rows(plans.take(iter.index()))),
                sound_entries(entries@),
        {
            let ghost n = iter.index();
            let ghost some = plans.take(n + 1);
            assert(some.drop_last() =~= plans.take(n));
            assert(some.last() == registration@);
            assert(plans[n] == registration@);
            proof {
                if plans_fault(some, config) is Some {
                    lemma_plans_fault(plans, n + 1, config);
                }
            }
            let definition = registration.define();
            let ghost plan = definition@;
            let Definition { patterns, opaque, gap, rules: defined } = definition;
            assert(plan.patterns.len() == patterns@.len());
            if patterns.len() == 0 {
                return Err(RuleRouterError::EmptyPatternSet);
            }
            assert(plan.patterns[0] == patterns@[0]@);
            // An empty method set would match no method, leaving its rule unreachable.
            if empty_set_present(&defined) {
                return Err(RuleRouterError::EmptyMethodSet { pattern: patterns[0].clone() });
            }
            // The id of a rule is its position. `u32::MAX` stands for the default rule, so
            // it must never be assigned to a registered one.
            assert(plan.rules.len() == defined@.len());
            if defined.len() > DEFAULT_RULE as usize - rules.len() {
                return Err(RuleRouterError::TooManyRegistrations);
            }
            let numbered_rules = number_rules(&defined, rules.len() as u32);
            let more = match list_entries(&patterns, opaque, gap, &numbered_rules, &config) {
                Ok(more) => more,
                Err(e) => {
                    return Err(e);
                },
            };
            proof {
                lemma_more_rows(
                    plans,
                    n,
                    entries@,
                    sources@,
                    more@,
                    patterns@,
                    numbered_rules@,
                );
            }
            let ghost entries0 = entries@;
            let ghost sources0 = sources@;
            let ghost more0 = more@;
            let ghost patterns0 = patterns@;
            let mut more = more;
            let mut patterns = patterns;
            entries.append(&mut more);
            sources.append(&mut patterns);
            assert(entries@ =~= entries0 + more0);
            assert(sources@ =~= sources0 + patterns0);
            append_rules(&mut rules, defined);
        }
        assert(plans.take(plans.len() as int) =~= plans);
        match Router::build_paths(&entries) {
            Err(e) => Err(map_build_err(e, &sources, Ghost(all_rows(plans)))),
            Ok(router) => {
                let guard = PathConfusionGuard::new(router, config);
                Ok(RuleRouter { rules, default, guard, entries, sources })
            },
        }
    }
}

} // verus!
