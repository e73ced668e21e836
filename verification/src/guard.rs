//! Path-confusion checks over the route tree's coverage summaries.

use std::sync::Arc;

use vstd::prelude::*;
use vstd::string::*;

use crate::anchor;
use crate::anchor::{first_content_byte, lowercase, raise, stable_prefix, uppercase_present};
use crate::config::{GuardConfig, GuardMode, ResolveError, StructuralClass, StructuralProbe};
use crate::cover;
use crate::cover::{Cover, RuleId};
use crate::coverage;
use crate::diagnostics::{RawMatch, StructuralExplanation};
use crate::pattern::Pattern;
use crate::percent;
use crate::percent::{escape_present, percent_decode_once};
use crate::route_tree;
use crate::route_tree::Router;
use crate::routing;
use crate::scan_laws;
use crate::structural;
use crate::structural::{
    classes_present, enabled_classes, enabled_encodings, primary_class, scan, ClassSet, Encodings,
    Lens, ScanResult,
};

verus! {

/// What the checks say of a request.
pub ghost enum Verdict {
    /// No check denies.
    Pass,
    /// A built-in check denies.
    Deny(ResolveError),
    /// The probe of this name denies.
    Probe(Seq<char>),
}

/// Whether a result reports the verdict, with `accepted` where no check denies.
pub open spec fn reports<T>(result: Result<T, ResolveError>, verdict: Verdict, accepted: T) -> bool {
    match verdict {
        Verdict::Pass => result == Ok::<T, ResolveError>(accepted),
        Verdict::Deny(error) => result == Err::<T, ResolveError>(error),
        Verdict::Probe(label) => result matches Err(ResolveError::Probe(name)) && name@ == label,
    }
}

/// The verdict of a check, else that of the next one.
pub open spec fn first_denial(denial: Option<ResolveError>, next: Verdict) -> Verdict {
    match denial {
        Some(error) => Verdict::Deny(error),
        None => next,
    }
}

/// A path as a backend routes it: lowercased where it folds case.
pub open spec fn routed(path: Seq<u8>, fold: bool) -> Seq<u8> {
    if fold {
        anchor::folded(path)
    } else {
        path
    }
}

/// Whether every outcome is this one.
pub open spec fn uniformly(outcomes: Set<RawMatch>, outcome: RawMatch) -> bool {
    forall|other: RawMatch| #[trigger] outcomes.contains(other) ==> other == outcome
}

/// The runtime path-confusion verdict, driven by the route tree.
///
/// Every modeled boundary-shift transform (`%2F` decode, `//` merge, `;` strip,
/// `\`-as-separator, and the enabled alternate encodings) rewrites the path only *at or
/// after* the byte that triggers it, so the paths a backend could reinterpret a request
/// into all extend the **stable prefix**: the path up to the last clean separator before
/// the earliest structural occurrence. A boundary-shift byte therefore denies only when
/// the route table makes some *other* rule reachable past that anchor. Dot-segments
/// climb, so they raise the anchor toward the root before the same check; NUL truncation
/// denies unconditionally.
///
/// Three checks compose under the default mode: the positional verdict above, then the
/// precise case-fold and content-decode verdicts (apply the declared transform, re-route,
/// deny only a rule change), then any probes.
pub struct PathConfusionGuard {
    pub router: Router,
    pub mode: GuardMode,
    /// Byte classes that deny, derived from the configured classes plus (when the backend
    /// folds case) uppercase.
    pub enabled: ClassSet,
    /// Which alternate encodings the scanner recognises.
    pub enc: Encodings,
    /// Whether the backend folds ASCII case (drives the content-decode lowercasing).
    pub case_insensitive: bool,
    /// Custom probes: a structural form the built-in alphabet doesn't ship, denied on
    /// whole-path presence.
    pub probes: Vec<Arc<Box<dyn StructuralProbe>>>,
    /// Longest original path that the checks analyze.
    pub max_path_len: usize,
}

/// The first probe that finds its form.
pub open spec fn first_match(probes: Seq<Arc<Box<dyn StructuralProbe>>>, path: Seq<char>) -> Option<
    int,
>
    decreases probes.len(),
{
    if probes.len() == 0 {
        None
    } else if first_match(probes.drop_last(), path) is Some {
        first_match(probes.drop_last(), path)
    } else if probes.last().detects(path) {
        Some(probes.len() - 1)
    } else {
        None
    }
}

impl PathConfusionGuard {
    /// What the positional check looks for: everything but case, which folds precisely.
    pub open spec fn lens(&self) -> Lens {
        Lens { enabled: ClassSet { case: false, ..self.enabled }, enc: self.enc }
    }

    /// What the strict mode looks for.
    pub open spec fn strict_lens(&self) -> Lens {
        Lens { enabled: self.enabled, enc: self.enc }
    }

    /// What the path selects as it is written.
    pub open spec fn raw(&self, path: Seq<u8>, method: http::Method) -> RawMatch {
        routing::identity(self.router.slots(), path, method)
    }

    /// The enabled classes that some interpretation of the path carries.
    pub open spec fn flagged(&self, path: Seq<u8>) -> ClassSet {
        structural::survey(path, self.lens()).classes.meet(self.lens().enabled)
    }

    /// The prefix of a flagged path that no modeled transform rewrites.
    pub open spec fn anchor(&self, path: Seq<u8>) -> Seq<u8> {
        let found = structural::survey(path, self.lens());
        anchor::anchor(
            path,
            self.case_insensitive,
            found.earliest->Some_0 as int,
            found.dot_pops as nat,
        )
    }

    /// The outcomes of the paths that extend the anchor.
    pub open spec fn reachable(&self, path: Seq<u8>, method: http::Method) -> Set<RawMatch> {
        routing::anchored(
            self.router.slots(),
            routing::anchor_segments(self.anchor(path)),
            method,
        )
    }

    /// The positional verdict.
    pub open spec fn structural_denial(&self, path: Seq<u8>, method: http::Method) -> Option<
        ResolveError,
    > {
        let present = self.flagged(path);
        if present.is_void() {
            None
        } else if path.len() > self.max_path_len {
            Some(ResolveError::TooLong)
        } else if !present.truncation && uniformly(
            self.reachable(path, method),
            self.raw(path, method),
        ) {
            None
        } else {
            Some(ResolveError::StructuralForm(structural::foremost(present)))
        }
    }

    /// The case-fold verdict.
    pub open spec fn fold_denial(&self, path: Seq<u8>, method: http::Method) -> Option<
        ResolveError,
    > {
        if !self.case_insensitive || !anchor::has_upper(path) {
            None
        } else if path.len() > self.max_path_len {
            Some(ResolveError::TooLong)
        } else if self.raw(anchor::folded(path), method) == self.raw(path, method) {
            None
        } else {
            Some(ResolveError::CaseFoldRuleChange)
        }
    }

    /// Whether the path still selects the same after `n` decode passes, as they leave it and
    /// lowercased where case is folded.
    pub open spec fn decodes_in_place(&self, path: Seq<u8>, n: nat, method: http::Method) -> bool {
        self.agrees(percent::decode_times(path, n), self.raw(path, method), method)
    }

    /// Whether a path selects this outcome, both as it is and lowercased where case is folded.
    pub open spec fn agrees(&self, path: Seq<u8>, outcome: RawMatch, method: http::Method) -> bool {
        &&& self.raw(path, method) == outcome
        &&& self.raw(routed(path, self.case_insensitive), method) == outcome
    }

    /// The content-decode verdict. Any `%` calls for it, even one that begins no escape: a
    /// lenient decoder may still consume it, so a path over the length limit is not let
    /// through on its account.
    pub open spec fn decode_denial(&self, path: Seq<u8>, method: http::Method) -> Option<
        ResolveError,
    > {
        if !path.contains(0x25) {
            None
        } else if path.len() > self.max_path_len {
            Some(ResolveError::TooLong)
        } else if self.decodes_in_place(path, 1, method) && (self.enc.double_decode
            ==> self.decodes_in_place(path, 2, method)) {
            None
        } else {
            Some(ResolveError::DecodeRuleChange)
        }
    }

    /// The strict mode's verdict.
    pub open spec fn canonical_denial(&self, path: Seq<u8>) -> Option<ResolveError> {
        let present = structural::survey(path, self.strict_lens()).classes.meet(self.enabled);
        if present.is_void() && !percent::has_escape(path) {
            None
        } else if path.len() > self.max_path_len {
            Some(ResolveError::TooLong)
        } else if present.is_void() {
            Some(ResolveError::NonCanonicalEscape)
        } else {
            Some(ResolveError::NonCanonical(structural::foremost(present)))
        }
    }

    /// The verdict of the probes. They are not asked about a path over the length limit.
    pub open spec fn probe_verdict(&self, path: Seq<char>) -> Verdict {
        if self.probes@.len() == 0 {
            Verdict::Pass
        } else if vstd::utf8::encode_utf8(path).len() > self.max_path_len {
            Verdict::Deny(ResolveError::TooLong)
        } else {
            match first_match(self.probes@, path) {
                Some(i) => Verdict::Probe(self.probes@[i].label()),
                None => Verdict::Pass,
            }
        }
    }

    /// The first denial of the built-in checks of the mode.
    pub open spec fn builtin_denial(&self, path: Seq<u8>, method: http::Method) -> Option<
        ResolveError,
    > {
        match self.mode {
            GuardMode::Disabled => None,
            GuardMode::RejectAmbiguous => match self.structural_denial(path, method) {
                Some(error) => Some(error),
                None => match self.fold_denial(path, method) {
                    Some(error) => Some(error),
                    None => self.decode_denial(path, method),
                },
            },
            GuardMode::RequireCanonical => self.canonical_denial(path),
        }
    }

    /// The verdict of all the checks of the mode.
    pub open spec fn verdict(&self, path: Seq<char>, method: http::Method) -> Verdict {
        first_denial(
            self.builtin_denial(vstd::utf8::encode_utf8(path), method),
            if self.mode == GuardMode::Disabled {
                Verdict::Pass
            } else {
                self.probe_verdict(path)
            },
        )
    }

    /// Whether the guard was made from this configuration.
    pub open spec fn configured(&self, config: GuardConfig) -> bool {
        &&& self.mode == config.mode
        &&& self.enabled == (ClassSet {
            case: config.case_sensitivity == crate::config::CaseSensitivity::Insensitive,
            ..structural::classes_of(config.structural_classes)
        })
        &&& self.enc == structural::encodings_of(config.structural_classes, config.decode_depth)
        &&& self.case_insensitive == (config.case_sensitivity
            == crate::config::CaseSensitivity::Insensitive)
        &&& self.probes == config.structural_classes.probes
        &&& self.max_path_len == config.max_path_len
    }

    /// Build a guard over `router` for the given mode and structural configuration.
    pub fn new(router: Router, config: GuardConfig) -> (guard: Self)
        ensures
            guard.router == router,
            guard.configured(config),
    {
        let mut enabled = enabled_classes(&config.structural_classes);
        if config.case_sensitivity.is_insensitive() {
            enabled.case = true;
        }
        PathConfusionGuard {
            router,
            mode: config.mode,
            enabled,
            enc: enabled_encodings(&config.structural_classes, config.decode_depth),
            case_insensitive: config.case_sensitivity.is_insensitive(),
            probes: config.structural_classes.probes,
            max_path_len: config.max_path_len,
        }
    }

    /// Check interpretations and return the raw identity they agree with.
    pub fn checked(&self, path: &str, method: &http::Method) -> (result: Result<
        RawMatch,
        ResolveError,
    >)
        requires
            self.router.wf(),
        ensures
            reports(
                result,
                self.verdict(path@, *method),
                self.raw(path.spec_bytes(), *method),
            ),
    {
        match self.mode {
            GuardMode::Disabled => {},
            GuardMode::RejectAmbiguous => {
                if let Some(error) = self.positional_deny(path, method) {
                    return Err(error);
                }
                if let Some(error) = self.case_fold_deny(path, method) {
                    return Err(error);
                }
                if let Some(error) = self.content_decode_deny(path, method) {
                    return Err(error);
                }
                if let Some(error) = self.custom_probe_deny(path) {
                    return Err(error);
                }
            },
            GuardMode::RequireCanonical => {
                // Strict: every position live and any percent-escape is itself
                // non-canonical.
                if let Some(error) = self.noncanonical_deny(path) {
                    return Err(error);
                }
                if let Some(error) = self.custom_probe_deny(path) {
                    return Err(error);
                }
            },
        }
        Ok(self.router.identity(path.as_bytes(), method))
    }

    /// Whether `path` must be denied for the method.
    pub fn ambiguous(&self, path: &str, method: &http::Method) -> (denied: bool)
        requires
            self.router.wf(),
        ensures
            denied <==> self.verdict(path@, *method) != Verdict::Pass,
    {
        self.checked(path, method).is_err()
    }

    /// What the probes say. Denies if any registered custom probe recognises its form anywhere in
    /// `path`, attributing the probe by name.
    fn custom_probe_deny(&self, path: &str) -> (denial: Option<ResolveError>)
        ensures
            match self.probe_verdict(path@) {
                Verdict::Pass => denial is None,
                Verdict::Deny(error) => denial == Some(error),
                Verdict::Probe(label) => denial matches Some(ResolveError::Probe(name)) && name@
                    == label,
            },
    {
        if self.probes.len() == 0 {
            return None;
        }
        if path.as_bytes().len() > self.max_path_len {
            return Some(ResolveError::TooLong);
        }
        let mut i: usize = 0;
        while i < self.probes.len()
            invariant
                i <= self.probes@.len(),
                first_match(self.probes@.take(i as int), path@) is None,
                self.probes@.len() > 0,
                vstd::utf8::encode_utf8(path@).len() <= self.max_path_len,
            decreases self.probes@.len() - i,
        {
            let probe = &self.probes[i];
            let ghost some = self.probes@.take(i + 1);
            assert(some.drop_last() =~= self.probes@.take(i as int));
            assert(some.last() == self.probes@[i as int]);
            if probe.matches(path) {
                proof {
                    lemma_first_match(self.probes@, i as int, path@);
                }
                return Some(ResolveError::Probe(probe.name()));
            }
            i = i + 1;
        }
        assert(self.probes@.take(i as int) =~= self.probes@);
        None
    }

    /// The positional verdict, the **scoped denial**. A clean path (no enabled structural
    /// byte) never walks the tree; a flagged path is denied unless every rule reachable
    /// past its anchor is the very rule it matched.
    ///
    /// Case is left out here: an uppercase byte alone never denies positionally, only an
    /// actual fold relocation does.
    fn positional_deny(&self, path: &str, method: &http::Method) -> (denial: Option<ResolveError>)
        requires
            self.router.wf(),
        ensures
            denial == self.structural_denial(path.spec_bytes(), *method),
    {
        let ghost bytes = path.spec_bytes();
        let enabled = ClassSet { case: false, ..self.enabled };
        let scan = scan(path, enabled, self.enc);
        let present = scan.classes.intersect(enabled);
        if present.is_empty() {
            return None;
        }
        if path.as_bytes().len() > self.max_path_len {
            return Some(ResolveError::TooLong);
        }
        if present.truncation {
            return Some(ResolveError::StructuralForm(primary_class(present)));
        }
        proof {
            lemma_flagged_offset(bytes, self.lens());
            vstd::utf8::encode_utf8_valid_utf8(path@);
            scan_laws::occurrences_begin_characters(
                bytes,
                self.lens(),
                structural::survey(bytes, self.lens()),
            );
        }
        let offset: usize = match scan.earliest {
            Some(offset) => offset,
            None => 0,
        };
        let anchor = self.anchor_for(path, &scan, offset);
        let matched = self.router.identity(path.as_bytes(), method);
        let cover = self.router.anchor_cover(anchor, method);
        proof {
            lemma_cover_decides(
                *self,
                cover,
                routing::anchor_segments(anchor.spec_bytes()),
                matched,
                bytes,
                *method,
            );
        }
        if cover == Cover::of(matched) {
            None
        } else {
            Some(ResolveError::StructuralForm(primary_class(present)))
        }
    }

    /// The **anchor** for a flagged `path`: the prefix the reachable-set argument treats as
    /// invariant under every modeled transform.
    fn anchor_for<'p>(&self, path: &'p str, scan: &ScanResult, offset: usize) -> (anchor: &'p str)
        requires
            offset < path.spec_bytes().len(),
            vstd::utf8::is_char_boundary(path.spec_bytes(), offset as int),
        ensures
            anchor.spec_bytes() == anchor::anchor(
                path.spec_bytes(),
                self.case_insensitive,
                offset as int,
                scan.dot_pops as nat,
            ),
    {
        let ghost bytes = path.spec_bytes();
        proof {
            anchor::lemma_content_from(bytes, self.case_insensitive, 0);
        }
        let bound: usize = match first_content_byte(path.as_bytes(), self.case_insensitive) {
            Some(content) => if content < offset {
                content
            } else {
                offset
            },
            None => offset,
        };
        proof {
            if bound != offset {
                anchor::lemma_ascii_boundary(path, bound as int);
            }
            anchor::lemma_through_slash(bytes.take(bound as int));
        }
        let prefix = stable_prefix(path, bound);
        proof {
            anchor::lemma_ascii_boundary(prefix, prefix.spec_bytes().len() - 1);
        }
        raise(prefix, scan.dot_pops)
    }

    /// The anchor that the positional check reasons over for `path`, or `None` where it
    /// never reaches the anchor: a clean path, an over-length one, or an unconditional
    /// truncation deny.
    pub fn structural_anchor<'p>(&self, path: &'p str) -> (anchor: Option<&'p str>)
        ensures
            match anchor {
                Some(anchor) => self.anchors(path.spec_bytes()) && anchor.spec_bytes()
                    == self.anchor(path.spec_bytes()),
                None => !self.anchors(path.spec_bytes()),
            },
    {
        let ghost bytes = path.spec_bytes();
        let enabled = ClassSet { case: false, ..self.enabled };
        let scan = scan(path, enabled, self.enc);
        let present = scan.classes.intersect(enabled);
        if present.is_empty() || path.as_bytes().len() > self.max_path_len || present.truncation {
            return None;
        }
        proof {
            lemma_flagged_offset(bytes, self.lens());
            vstd::utf8::encode_utf8_valid_utf8(path@);
            scan_laws::occurrences_begin_characters(
                bytes,
                self.lens(),
                structural::survey(bytes, self.lens()),
            );
        }
        match scan.earliest {
            Some(offset) => Some(self.anchor_for(path, &scan, offset)),
            None => None,
        }
    }

    /// Whether the positional check reaches the anchor.
    pub open spec fn anchors(&self, path: Seq<u8>) -> bool {
        &&& !self.flagged(path).is_void()
        &&& path.len() <= self.max_path_len
        &&& !self.flagged(path).truncation
    }

    /// What case folding says. Denies iff lowercasing the path **relocates** it to a different
    /// rule than the raw path matched. Precise: `/files/ReadMe.TXT` folds within its own
    /// rule and keeps flowing; `/ADMIN` folding onto a distinct `/admin` rule is denied.
    fn case_fold_deny(&self, path: &str, method: &http::Method) -> (denial: Option<ResolveError>)
        ensures
            denial == self.fold_denial(path.spec_bytes(), *method),
    {
        let path = path.as_bytes();
        if !self.case_insensitive || !uppercase_present(path) {
            return None;
        }
        if path.len() > self.max_path_len {
            return Some(ResolveError::TooLong);
        }
        let folded = lowercase(path);
        if self.router.identity(&folded, method) == self.router.identity(path, method) {
            None
        } else {
            Some(ResolveError::CaseFoldRuleChange)
        }
    }

    /// What the strict mode says. Every position is live, so any enabled structural byte denies, and
    /// any complete escape does.
    fn noncanonical_deny(&self, path: &str) -> (denial: Option<ResolveError>)
        ensures
            denial == self.canonical_denial(path.spec_bytes()),
    {
        let present = classes_present(path, self.enabled, self.enc).intersect(self.enabled);
        let path = path.as_bytes();
        let clean = present.is_empty();
        if clean && !escape_present(path) {
            return None;
        }
        if path.len() > self.max_path_len {
            return Some(ResolveError::TooLong);
        }
        if clean {
            Some(ResolveError::NonCanonicalEscape)
        } else {
            Some(ResolveError::NonCanonical(primary_class(present)))
        }
    }

    /// What decoding says. Models every possible complete-path result (one decode pass,
    /// plus two where declared; each lowercased too where case is folded) and denies if any
    /// possible result **relocates** the path to a different rule than the raw path matched.
    /// Precise: results that all land on the same rule (`/foo%20bar`) are allowed.
    fn content_decode_deny(&self, path: &str, method: &http::Method) -> (denial: Option<
        ResolveError,
    >)
        ensures
            denial == self.decode_denial(path.spec_bytes(), *method),
    {
        let raw = path.as_bytes();
        let ghost bytes = raw@;
        if !contains_percent(raw) {
            return None;
        }
        if raw.len() > self.max_path_len {
            return Some(ResolveError::TooLong);
        }
        let matched = self.router.identity(raw, method);
        proof {
            reveal_with_fuel(percent::decode_times, 3);
        }
        let once = percent_decode_once(raw);
        if !self.confirms(&once, matched, method) {
            return Some(ResolveError::DecodeRuleChange);
        }
        if self.enc.double_decode {
            let twice = percent_decode_once(&once);
            if !self.confirms(&twice, matched, method) {
                return Some(ResolveError::DecodeRuleChange);
            }
        }
        None
    }

    /// Whether a decode result selects this outcome, as it is and, where case is folded,
    /// lowercased. A backend that does not fold after all reaches the first.
    fn confirms(&self, path: &Vec<u8>, outcome: RawMatch, method: &http::Method) -> (same: bool)
        ensures
            same == self.agrees(path@, outcome, *method),
    {
        if self.router.identity(path, method) != outcome {
            return false;
        }
        if self.case_insensitive {
            let folded = lowercase(path);
            self.router.identity(&folded, method) == outcome
        } else {
            true
        }
    }

    /// The region responsible for a scoped structural denial; `None` where the positional
    /// check does not reach the anchor.
    pub fn structural_explanation(&self, path: &str, method: &http::Method) -> (explanation: Option<
        StructuralExplanation,
    >)
        requires
            self.router.wf(),
        ensures
            match explanation {
                Some(region) => {
                    &&& self.anchors(path.spec_bytes())
                    &&& vstd::utf8::encode_utf8(region.anchor@) == self.anchor(path.spec_bytes())
                    &&& region.outcomes() =~= self.reachable(path.spec_bytes(), *method)
                    &&& region.sorted()
                },
                None => !self.anchors(path.spec_bytes()),
            },
    {
        match self.structural_anchor(path) {
            None => None,
            Some(anchor) => {
                let list = self.router.anchor_identities(anchor, method);
                let ghost outcomes = list.outcomes();
                let region = StructuralExplanation {
                    anchor: anchor.to_owned(),
                    registrations: list.registrations,
                    includes_default: list.includes_default,
                    includes_method_denial: list.includes_method_denial,
                };
                assert(region.outcomes() =~= outcomes);
                Some(region)
            },
        }
    }

    /// The rule that the path would select for the method if the pattern's terminal were
    /// absent, where that terminal stops the lookup without one.
    pub fn method_gap(&self, path: &str, method: &http::Method, pattern: &Pattern) -> (hidden:
        Option<RuleId>)
        ensures
            hidden == route_tree::gap_rule(
                self.router.slots(),
                path.spec_bytes(),
                *method,
                routing::key_of(pattern@),
            ),
    {
        self.router.method_gap(path, method, pattern)
    }
}

/// Whether a path holds a `%`.
fn contains_percent(path: &[u8]) -> (found: bool)
    ensures
        found == path@.contains(0x25),
{
    let mut i: usize = 0;
    while i < path.len()
        invariant
            i <= path@.len(),
            forall|j: int| 0 <= j < i ==> #[trigger] path@[j] != 0x25,
        decreases path@.len() - i,
    {
        if path[i] == 0x25 {
            assert(path@[i as int] == 0x25);
            return true;
        }
        i = i + 1;
    }
    false
}

/// The first match among some probes is the first match among all.
proof fn lemma_first_match(probes: Seq<Arc<Box<dyn StructuralProbe>>>, i: int, path: Seq<char>)
    requires
        0 <= i < probes.len(),
        first_match(probes.take(i + 1), path) == Some(i),
    ensures
        first_match(probes, path) == Some(i),
    decreases probes.len(),
{
    if i + 1 == probes.len() {
        assert(probes.take(i + 1) =~= probes);
    } else {
        assert(probes.drop_last().take(i + 1) =~= probes.take(i + 1));
        lemma_first_match(probes.drop_last(), i, path);
    }
}

/// A flagged path has an earliest occurrence.
pub proof fn lemma_flagged_offset(path: Seq<u8>, l: Lens)
    requires
        structural::describes_all(structural::survey(path, l), path, l),
        !structural::survey(path, l).classes.meet(l.enabled).is_void(),
    ensures
        structural::survey(path, l).earliest is Some,
        structural::survey(path, l).earliest->Some_0 < path.len(),
{
    let found = structural::survey(path, l);
    let present = found.classes.meet(l.enabled);
    scan_laws::scan_is_consistent(path, l, found);
    let class = choose|class: StructuralClass| #[trigger] present.has(class);
    assert(l.enabled.has(class) && found.classes.has(class));
}

/// The summary of a region is that of one outcome exactly where the region has no other.
proof fn lemma_cover_decides(
    guard: PathConfusionGuard,
    cover: Cover,
    segs: Seq<Seq<u8>>,
    matched: RawMatch,
    path: Seq<u8>,
    method: http::Method,
)
    requires
        guard.router.wf(),
        cover::summarizes(cover, routing::anchored(guard.router.slots(), segs, method)),
        cover::genuine(routing::anchored(guard.router.slots(), segs, method)),
        matched == guard.raw(path, method),
    ensures
        cover == cover::cover_of(matched) <==> uniformly(
            routing::anchored(guard.router.slots(), segs, method),
            matched,
        ),
{
    let slots = guard.router.slots();
    let outcomes = routing::anchored(slots, segs, method);
    let some = coverage::lemma_some_outcome(slots, segs, method);
    assert(outcomes.contains(some));
    assert(matched != (RawMatch::Matched { id: cover::DEFAULT_RULE })) by {
        if exists|key: routing::Key| routing::selects(slots, key, path, method) {
            let key = choose|key: routing::Key| routing::selects(slots, key, path, method);
            assert(routing::decide(slots(key), method) != Some(
                RawMatch::Matched { id: cover::DEFAULT_RULE },
            ));
        }
    }
    if uniformly(outcomes, matched) {
        assert(cover::summarizes(cover::cover_of(matched), outcomes));
        cover::lemma_one_summary(cover, cover::cover_of(matched), outcomes);
    }
}

} // verus!
