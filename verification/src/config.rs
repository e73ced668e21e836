//! Configure downstream parsing assumptions and enforcement.
//!
//! | Setting | Purpose | Default |
//! |---|---|---|
//! | [`GuardMode`] | Choose checks based on possible rule changes, strict rejection, or off | `RejectAmbiguous` |
//! | [`CaseSensitivity`] | Declare whether downstream routing folds ASCII case | Required |
//! | [`DecodeDepth`] | Declare the maximum supported percent-decode depth | Required |
//! | [`StructuralClasses`] | Enable additional structural forms and custom detectors | Built-in classes only |
//!
//! These settings describe possible downstream behaviors; the crate does not detect
//! them from your deployment.

use std::sync::Arc;

use vstd::prelude::*;

use crate::text::quote;

verus! {

/// The length, in bytes of the original path, up to which checks are run by default.
pub const DEFAULT_MAX_PATH_LEN: usize = 8192;

/// Reusable deployment assumptions and enforcement settings for a route guard.
///
/// Case sensitivity and decode depth are required; there is deliberately no
/// `Default` implementation. The mode and structural classes start with their
/// conservative built-in defaults and can be customized before construction.
#[derive(Clone)]
pub struct GuardConfig {
    /// Enforcement mode; defaults to checking for possible rule changes.
    pub mode: GuardMode,
    /// Additional structural classes and custom probes.
    pub structural_classes: StructuralClasses,
    /// Declared maximum whole-path percent-decode depth.
    pub decode_depth: DecodeDepth,
    /// Whether downstream path interpretation folds ASCII case.
    pub case_sensitivity: CaseSensitivity,
    /// Longest original path, in bytes, that the checks analyze. A longer path that
    /// needs a check is denied.
    pub max_path_len: usize,
}

impl GuardConfig {
    /// Declare the required deployment assumptions with default enforcement settings.
    #[must_use]
    pub fn new(case_sensitivity: CaseSensitivity, decode_depth: DecodeDepth) -> (config: Self)
        ensures
            config.mode == GuardMode::RejectAmbiguous,
            config.structural_classes.is_quartet_only(),
            config.decode_depth == decode_depth,
            config.case_sensitivity == case_sensitivity,
            config.max_path_len == DEFAULT_MAX_PATH_LEN,
    {
        GuardConfig {
            mode: GuardMode::default(),
            structural_classes: StructuralClasses::default(),
            decode_depth,
            case_sensitivity,
            max_path_len: DEFAULT_MAX_PATH_LEN,
        }
    }

    /// Selects enforcement without changing the declared parsing assumptions.
    #[must_use]
    pub fn with_mode(self, mode: GuardMode) -> (config: Self)
        ensures
            config == (GuardConfig { mode, ..self }),
    {
        GuardConfig { mode, ..self }
    }

    /// Sets additional structural forms and custom probes.
    #[must_use]
    pub fn with_structural_classes(self, classes: StructuralClasses) -> (config: Self)
        ensures
            config == (GuardConfig { structural_classes: classes, ..self }),
    {
        GuardConfig { structural_classes: classes, ..self }
    }

    /// Sets the longest original path that the checks analyze.
    #[must_use]
    pub fn with_max_path_len(self, max_path_len: usize) -> (config: Self)
        ensures
            config == (GuardConfig { max_path_len, ..self }),
    {
        GuardConfig { max_path_len, ..self }
    }
}

/// Which ambiguity checks to run.
///
/// The default checks for possible rule changes. The strict mode rejects every
/// recognized non-canonical form, even when the rule would stay the same.
#[derive(Debug, Clone, Copy, PartialEq, Eq, Structural)]
pub enum GuardMode {
    /// Check whether downstream parsing could select a different rule. The default.
    ///
    /// This mode accepts structural forms such as encoded slashes when every path in
    /// the analyzed region selects the same rule for the request method. Structural
    /// analysis is conservative and may reject more than actual parsing would require.
    /// Case folding and percent-decoding compare the resulting rules directly for the
    /// request method. NUL is always rejected.
    RejectAmbiguous,
    /// Reject every enabled structural form, every complete percent escape, and
    /// uppercase ASCII when case-insensitive parsing is configured.
    ///
    /// Applies everywhere, without checking whether the rule would change.
    RequireCanonical,
    /// Disable ambiguity checks and custom probes. Resolution still validates the path
    /// input, internal rule IDs and the availability of the method.
    Disabled,
}

impl Default for GuardMode {
    fn default() -> (mode: Self)
        ensures
            mode == GuardMode::RejectAmbiguous,
    {
        GuardMode::RejectAmbiguous
    }
}

/// Whether the upstream resolves paths case-sensitively. A required declaration.
///
/// A case-folding backend routes `/ADMIN` and `/admin` identically, so a
/// differently-cased request can reach a rule *without its checks*. Under
/// `Insensitive` the guard lowercases the request path, re-routes it, and denies only
/// if the folded path lands on a *different* rule. Route patterns must then be
/// registered in lowercase. Models ASCII case only.
#[derive(Debug, Clone, Copy, PartialEq, Eq, Structural)]
pub enum CaseSensitivity {
    /// The upstream distinguishes ASCII case (the typical Unix-style backend).
    Sensitive,
    /// The upstream folds ASCII case (IIS/ASP.NET, Windows/macOS filesystems).
    Insensitive,
}

impl CaseSensitivity {
    /// Whether this is `Insensitive`.
    pub fn is_insensitive(self) -> (insensitive: bool)
        ensures
            insensitive == (self == CaseSensitivity::Insensitive),
    {
        matches!(self, CaseSensitivity::Insensitive)
    }
}

/// Which whole-path percent-decode depths may happen behind this layer before the
/// path is finally routed. A required declaration.
///
/// When unsure, declare `UpToTwo`: within the supported model it can only deny more.
/// More than two decode passes are outside the model.
#[derive(Debug, Clone, Copy, PartialEq, Eq, Structural)]
pub enum DecodeDepth {
    /// At most one percent-decode pass happens behind this layer.
    UpToOne,
    /// The whole path may receive zero, one, or two decode passes. Both possible
    /// complete-path results are checked.
    UpToTwo,
}

impl DecodeDepth {
    /// Whether this is `UpToTwo`.
    pub fn is_up_to_two(self) -> (up_to_two: bool)
        ensures
            up_to_two == (self == DecodeDepth::UpToTwo),
    {
        matches!(self, DecodeDepth::UpToTwo)
    }
}

/// The structural-form class that triggered a denial.
#[derive(Debug, Clone, Copy, PartialEq, Eq, Structural)]
#[non_exhaustive]
pub enum StructuralClass {
    /// A `.`/`..` dot-segment, literal, encoded, or revealed by an enabled delimiter.
    DotSegment,
    /// An encoded or alternate `/` separator (`%2F`, `//`, and enabled forms).
    Separator,
    /// A `;`/`%3B` matrix path-parameter.
    MatrixParam,
    /// A raw or `%00` NUL, which truncates a C-string backend. Denied everywhere.
    NulTruncation,
    /// A `\`/`%5C` treated as a separator.
    Backslash,
    /// ASCII uppercase under a declared case-folding backend, reported only by the
    /// strict mode.
    Uppercase,
}

impl StructuralClass {
    /// The wording of the class in log lines.
    pub open spec fn text(self) -> Seq<char> {
        match self {
            StructuralClass::DotSegment => "dot-segment (`.`/`..`)"@,
            StructuralClass::Separator => "encoded or alternate path separator"@,
            StructuralClass::MatrixParam => "matrix path-parameter (`;`)"@,
            StructuralClass::NulTruncation => "NUL byte (truncation)"@,
            StructuralClass::Backslash => "backslash separator"@,
            StructuralClass::Uppercase => "uppercase under a case-folding backend"@,
        }
    }

    fn wording(self) -> (text: &'static str)
        ensures
            text@ == self.text(),
    {
        match self {
            StructuralClass::DotSegment => "dot-segment (`.`/`..`)",
            StructuralClass::Separator => "encoded or alternate path separator",
            StructuralClass::MatrixParam => "matrix path-parameter (`;`)",
            StructuralClass::NulTruncation => "NUL byte (truncation)",
            StructuralClass::Backslash => "backslash separator",
            StructuralClass::Uppercase => "uppercase under a case-folding backend",
        }
    }

    /// The class as it appears in log lines.
    pub fn to_string(&self) -> (text: String)
        ensures
            text@ == self.text(),
    {
        self.wording().to_owned()
    }
}

/// How a caller should answer a failed resolution.
#[derive(Debug, Clone, Copy, PartialEq, Eq, Structural)]
#[non_exhaustive]
pub enum ResolveErrorKind {
    /// An internal invariant failed: report a server error.
    Internal,
    /// The route table has no rule for the method: deny by policy.
    PolicyDenied,
    /// The path was invalid, ambiguous or non-canonical: a client error.
    InvalidInput,
}

/// Why a request path was denied: which check fired, with the byte class where one
/// is attributable.
#[derive(Debug, Clone, Copy, PartialEq, Eq)]
#[non_exhaustive]
pub enum ResolveError {
    /// The route tree returned an ID absent from the rule table. This indicates an
    /// internal invariant violation, not invalid client input. Deny the request and
    /// report an internal server error; never authorize it using the default rule.
    InvalidRuleId,
    /// The path stopped at a registration with no rule for this method.
    MethodNotConfigured,
    /// The supplied value was not a request path: paths must start with `/` (or be the
    /// special `*` request target) and must not contain a query (`?`) or fragment (`#`).
    InvalidPathInput,
    /// A structural form of this class could relocate the request: some rule other than
    /// the matched one is reachable within the form's anchored scope.
    StructuralForm(StructuralClass),
    /// Lowercasing the path relocates it to a *different* rule than the raw path matched.
    CaseFoldRuleChange,
    /// One of the possible completely decoded forms relocates the path to a *different*
    /// rule.
    DecodeRuleChange,
    /// The strict mode's presence deny: a structural form of this class, anywhere in
    /// the path.
    NonCanonical(StructuralClass),
    /// The strict mode's escape rule: the path carries a complete `%XX` escape.
    NonCanonicalEscape,
    /// A registered probe matched; carries the probe's name.
    Probe(&'static str),
    /// A path that needs a check exceeds the configured length. In the default mode any `%`
    /// calls for one, even if malformed; in the strict mode, complete escapes and recognized
    /// non-canonical forms do. Paths that need no check are never measured; the caller must
    /// enforce an overall request-size limit.
    TooLong,
}

impl ResolveError {
    /// The response wording, which names a broad category only.
    pub open spec fn response(self) -> Seq<char> {
        match self {
            ResolveError::InvalidRuleId => "Internal routing error"@,
            ResolveError::MethodNotConfigured => "Method not configured for request path"@,
            ResolveError::InvalidPathInput => "Invalid request path"@,
            ResolveError::StructuralForm(_)
            | ResolveError::CaseFoldRuleChange
            | ResolveError::DecodeRuleChange
            | ResolveError::Probe(_) => "Ambiguous request path"@,
            ResolveError::NonCanonical(_) | ResolveError::NonCanonicalEscape =>
                "Non-canonical request path"@,
            ResolveError::TooLong => "Request path too long"@,
        }
    }

    /// The log wording, which names the check and the class.
    pub open spec fn text(self) -> Seq<char> {
        match self {
            ResolveError::InvalidRuleId =>
                "internal routing error: matched rule ID is absent from the rule table"@,
            ResolveError::MethodNotConfigured =>
                "request method has no rule at the matched path"@,
            ResolveError::InvalidPathInput =>
                "invalid request path input: pass uri.path(), not a complete request target or URI"@,
            ResolveError::StructuralForm(class) => "ambiguous request path: "@ + class.text()
                + " in a route-relevant position"@,
            ResolveError::CaseFoldRuleChange =>
                "ambiguous request path: case-folding relocates it to a different rule"@,
            ResolveError::DecodeRuleChange =>
                "ambiguous request path: percent-decoding relocates it to a different rule"@,
            ResolveError::NonCanonical(class) => "non-canonical request path: "@ + class.text(),
            ResolveError::NonCanonicalEscape =>
                "non-canonical request path: percent-escape present"@,
            ResolveError::Probe(name) => "ambiguous request path: structural probe "@
                + crate::text::quoted(name@) + " matched"@,
            ResolveError::TooLong => "suspicious request path exceeds the length cap"@,
        }
    }

    /// The response category.
    pub open spec fn category(self) -> ResolveErrorKind {
        match self {
            ResolveError::InvalidRuleId => ResolveErrorKind::Internal,
            ResolveError::MethodNotConfigured => ResolveErrorKind::PolicyDenied,
            _ => ResolveErrorKind::InvalidInput,
        }
    }

    /// How to answer: an internal failure, a policy denial, or an invalid request.
    #[must_use]
    pub fn kind(&self) -> (kind: ResolveErrorKind)
        ensures
            kind == self.category(),
    {
        match self {
            ResolveError::InvalidRuleId => ResolveErrorKind::Internal,
            ResolveError::MethodNotConfigured => ResolveErrorKind::PolicyDenied,
            _ => ResolveErrorKind::InvalidInput,
        }
    }

    /// The short, static denial message for the HTTP response body. Deliberately
    /// coarse: it reports a broad error category without rule IDs or structural
    /// class details.
    #[must_use]
    pub fn message(&self) -> (message: &'static str)
        ensures
            message@ == self.response(),
    {
        match self {
            ResolveError::InvalidRuleId => "Internal routing error",
            ResolveError::MethodNotConfigured => "Method not configured for request path",
            ResolveError::InvalidPathInput => "Invalid request path",
            ResolveError::StructuralForm(_)
            | ResolveError::CaseFoldRuleChange
            | ResolveError::DecodeRuleChange
            | ResolveError::Probe(_) => "Ambiguous request path",
            ResolveError::NonCanonical(_) | ResolveError::NonCanonicalEscape =>
                "Non-canonical request path",
            ResolveError::TooLong => "Request path too long",
        }
    }

    /// The attributed line for the log.
    pub fn to_string(&self) -> (text: String)
        ensures
            text@ == self.text(),
    {
        match self {
            ResolveError::InvalidRuleId =>
                "internal routing error: matched rule ID is absent from the rule table".to_owned(),
            ResolveError::MethodNotConfigured =>
                "request method has no rule at the matched path".to_owned(),
            ResolveError::InvalidPathInput =>
                "invalid request path input: pass uri.path(), not a complete request target or URI".to_owned(),
            ResolveError::StructuralForm(class) => {
                let mut text = "ambiguous request path: ".to_owned();
                text.append(class.wording());
                text.append(" in a route-relevant position");
                text
            },
            ResolveError::CaseFoldRuleChange =>
                "ambiguous request path: case-folding relocates it to a different rule".to_owned(),
            ResolveError::DecodeRuleChange =>
                "ambiguous request path: percent-decoding relocates it to a different rule".to_owned(),
            ResolveError::NonCanonical(class) => {
                let mut text = "non-canonical request path: ".to_owned();
                text.append(class.wording());
                text
            },
            ResolveError::NonCanonicalEscape =>
                "non-canonical request path: percent-escape present".to_owned(),
            ResolveError::Probe(name) => {
                let mut text = "ambiguous request path: structural probe ".to_owned();
                text.append(quote(name).as_str());
                text.append(" matched");
                text
            },
            ResolveError::TooLong => "suspicious request path exceeds the length cap".to_owned(),
        }
    }
}

/// A structural character whose alternate (overlong-UTF-8) encodings a backend may
/// decode and then honor as path structure.
#[derive(Debug, Clone, Copy, PartialEq, Eq, Structural)]
pub enum StructuralChar {
    /// `/`, the path separator (`%C0%AF`, ...).
    Slash,
    /// `.`, which feeds dot-segment (`.`/`..`) resolution (`%C0%AE`, ...).
    Dot,
}

/// A user-defined structural detector for a path form the built-in alphabet doesn't
/// ship.
///
/// Probes inspect the **original request path**, not decoded interpretations. `matches`
/// must be **pure and deterministic**. Checks short-circuit on denial, and `Disabled`
/// skips probes; do not rely on a probe being called for logging or other side effects.
/// The check is **whole-path**: presence *anywhere* denies.
///
/// A verified implementation says with `label` and `detects` what its methods return. One in
/// unverified code cannot, and keeps the bodies given here. Nothing holds it to the contracts
/// of `name` and `matches`, so what is proved of probes does not speak of it.
pub trait StructuralProbe: Send + Sync {
    /// The identifier that `name` returns.
    open spec fn label(&self) -> Seq<char> {
        arbitrary()
    }

    /// The paths that carry the probe's form.
    open spec fn detects(&self, path: Seq<char>) -> bool {
        arbitrary()
    }

    /// A short static identifier for this probe.
    fn name(&self) -> (name: &'static str)
        ensures
            name@ == self.label(),
    ;

    /// Whether `path` carries this probe's structural form.
    fn matches(&self, path: &str) -> (found: bool)
        ensures
            found == self.detects(path@),
    ;
}

/// std's `Arc::new`, of a probe that coerces to a trait object on the way in. What is
/// believed: the shared trait object answers as the probe does.
#[verifier::external_body]
fn share_probe<P: StructuralProbe + 'static>(probe: Box<P>) -> (shared: Arc<
    Box<dyn StructuralProbe>,
>)
    ensures
        shared.label() == probe.label(),
        forall|path: Seq<char>| #[trigger] shared.detects(path) == probe.detects(path),
{
    Arc::new(probe)
}

/// The structural alphabet the guard recognises **beyond the always-on default
/// quartet** (encoded-slash, dot-segment, matrix-param, NUL-truncation).
///
/// Each toggle is a per-deployment **security** decision: enabling a class makes the
/// guard treat that form as route structure; leaving it off assumes the backend does
/// not.
#[derive(Clone)]
pub struct StructuralClasses {
    /// `\`/`%5C` as a path separator (Windows/IIS).
    pub backslash: bool,
    /// Recognise overlong UTF-8 `/` (`%C0%AF`, ...).
    pub overlong_slash: bool,
    /// Recognise overlong UTF-8 `.` (`%C0%AE`, ...).
    pub overlong_dot: bool,
    /// Recognise fullwidth-form structural confusables.
    pub unicode: bool,
    /// Custom structural detectors.
    pub probes: Vec<Arc<Box<dyn StructuralProbe>>>,
}

impl Default for StructuralClasses {
    fn default() -> (classes: Self)
        ensures
            classes.is_quartet_only(),
    {
        StructuralClasses {
            backslash: false,
            overlong_slash: false,
            overlong_dot: false,
            unicode: false,
            probes: Vec::new(),
        }
    }
}

impl StructuralClasses {
    /// Nothing is enabled beyond the always-on quartet.
    pub open spec fn is_quartet_only(self) -> bool {
        &&& !self.backslash
        &&& !self.overlong_slash
        &&& !self.overlong_dot
        &&& !self.unicode
        &&& self.probes@.len() == 0
    }

    /// The default set: just the always-on quartet (encoded-slash, dot-segment,
    /// matrix-param, NUL-truncation), no opt-in classes, encodings, or probes.
    #[must_use]
    pub fn new() -> (classes: Self)
        ensures
            classes.is_quartet_only(),
    {
        StructuralClasses::default()
    }

    /// Treat `\`/`%5C` as a path separator, for Windows/IIS backends. Opt-in, because a
    /// raw `\` is legitimate *content* on a Unix backend.
    #[must_use]
    pub fn with_backslash(self) -> (classes: Self)
        ensures
            classes == (StructuralClasses { backslash: true, ..self }),
    {
        StructuralClasses { backslash: true, ..self }
    }

    /// Treat `\` as content, as a Unix backend does.
    #[must_use]
    pub fn without_backslash(self) -> (classes: Self)
        ensures
            classes == (StructuralClasses { backslash: false, ..self }),
    {
        StructuralClasses { backslash: false, ..self }
    }

    /// Recognise overlong (non-shortest-form) UTF-8 encodings of the given structural
    /// characters (`%C0%AF` for `/`, `%C0%AE` for `.`, plus their 3- and 4-byte forms)
    /// as their class.
    #[must_use]
    pub fn with_overlong(self, chars: &[StructuralChar]) -> (classes: Self)
        ensures
            classes == (StructuralClasses {
                overlong_slash: self.overlong_slash || chars@.contains(StructuralChar::Slash),
                overlong_dot: self.overlong_dot || chars@.contains(StructuralChar::Dot),
                ..self
            }),
    {
        let mut overlong_slash = self.overlong_slash;
        let mut overlong_dot = self.overlong_dot;
        let mut i: usize = 0;
        while i < chars.len()
            invariant
                i <= chars@.len(),
                overlong_slash <==> self.overlong_slash || chars@.take(i as int).contains(
                    StructuralChar::Slash,
                ),
                overlong_dot <==> self.overlong_dot || chars@.take(i as int).contains(
                    StructuralChar::Dot,
                ),
            decreases chars@.len() - i,
        {
            let ghost before = chars@.take(i as int);
            assert(chars@.take(i + 1) =~= before.push(chars@[i as int]));
            assert forall|c: StructuralChar| #[trigger]
                chars@.take(i + 1).contains(c) <==> before.contains(c) || c
                    == chars@[i as int] by {
                if before.contains(c) {
                    let j = before.index_of(c);
                    assert(before.push(chars@[i as int])[j] == c);
                }
                assert(before.push(chars@[i as int])[i as int] == chars@[i as int]);
            }
            match chars[i] {
                StructuralChar::Slash => {
                    overlong_slash = true;
                },
                StructuralChar::Dot => {
                    overlong_dot = true;
                },
            }
            i = i + 1;
        }
        assert(chars@.take(i as int) =~= chars@);
        StructuralClasses { overlong_slash, overlong_dot, ..self }
    }

    /// Recognise the **fullwidth-form** structural confusables `／` (U+FF0F), `．`
    /// (U+FF0E), `；` (U+FF1B), and (when `with_backslash` is also set) `＼` (U+FF3C), in
    /// both raw and percent-encoded form, for a backend that Unicode-normalizes the path
    /// before routing.
    #[must_use]
    pub fn with_fullwidth_structure(self) -> (classes: Self)
        ensures
            classes == (StructuralClasses { unicode: true, ..self }),
    {
        StructuralClasses { unicode: true, ..self }
    }

    /// The same switch under the name of the normalization that folds the forms.
    #[must_use]
    pub fn with_unicode_normalization(self) -> (classes: Self)
        ensures
            classes == (StructuralClasses { unicode: true, ..self }),
    {
        self.with_fullwidth_structure()
    }

    /// Add a custom probe for a structural form the built-in alphabet doesn't ship.
    #[must_use]
    pub fn with_probe<P: StructuralProbe + 'static>(self, probe: P) -> (classes: Self)
        ensures
            classes == (StructuralClasses { probes: classes.probes, ..self }),
            classes.probes@.len() == self.probes@.len() + 1,
            classes.probes@.drop_last() == self.probes@,
            classes.probes@.last().label() == probe.label(),
            forall|path: Seq<char>| #[trigger]
                classes.probes@.last().detects(path) == probe.detects(path),
    {
        let ghost before = self;
        let mut probes = self.probes;
        probes.push(share_probe(Box::new(probe)));
        assert(probes@.drop_last() =~= before.probes@);
        StructuralClasses {
            backslash: self.backslash,
            overlong_slash: self.overlong_slash,
            overlong_dot: self.overlong_dot,
            unicode: self.unicode,
            probes,
        }
    }

    /// The wording of a switch.
    pub open spec fn switch_text(on: bool) -> Seq<char> {
        if on {
            "true"@
        } else {
            "false"@
        }
    }

    /// The quoted names of some probes, separated by commas.
    pub open spec fn labels_text(probes: Seq<Arc<Box<dyn StructuralProbe>>>) -> Seq<char>
        decreases probes.len(),
    {
        if probes.len() == 0 {
            Seq::empty()
        } else if probes.len() == 1 {
            crate::text::quoted(probes[0].label())
        } else {
            Self::labels_text(probes.drop_last()) + ", "@ + crate::text::quoted(
                probes.last().label(),
            )
        }
    }

    /// The wording of the switches and the names of the probes.
    pub open spec fn text(self) -> Seq<char> {
        "StructuralClasses { backslash: "@ + Self::switch_text(self.backslash)
            + ", overlong_slash: "@ + Self::switch_text(self.overlong_slash) + ", overlong_dot: "@
            + Self::switch_text(self.overlong_dot) + ", unicode: "@ + Self::switch_text(
            self.unicode,
        ) + ", probes: ["@ + Self::labels_text(self.probes@) + "] }"@
    }

    /// The switches and the names of the probes, for logs.
    pub fn describe(&self) -> (text: String)
        ensures
            text@ == self.text(),
    {
        let mut text = "StructuralClasses { backslash: ".to_owned();
        text.append(switch_word(self.backslash));
        text.append(", overlong_slash: ");
        text.append(switch_word(self.overlong_slash));
        text.append(", overlong_dot: ");
        text.append(switch_word(self.overlong_dot));
        text.append(", unicode: ");
        text.append(switch_word(self.unicode));
        text.append(", probes: [");
        let ghost start = text@;
        let mut i: usize = 0;
        assert(start + Self::labels_text(self.probes@.take(0)) =~= start);
        while i < self.probes.len()
            invariant
                i <= self.probes@.len(),
                text@ == start + Self::labels_text(self.probes@.take(i as int)),
            decreases self.probes@.len() - i,
        {
            let ghost some = self.probes@.take(i + 1);
            assert(some.drop_last() =~= self.probes@.take(i as int));
            assert(some.last() == self.probes@[i as int]);
            if i > 0 {
                text.append(", ");
            }
            text.append(quote(self.probes[i].name()).as_str());
            assert(text@ =~= start + Self::labels_text(some));
            i = i + 1;
        }
        assert(self.probes@.take(i as int) =~= self.probes@);
        text.append("] }");
        assert(text@ =~= self.text());
        text
    }
}

fn switch_word(on: bool) -> (word: &'static str)
    ensures
        word@ == StructuralClasses::switch_text(on),
{
    if on {
        "true"
    } else {
        "false"
    }
}

} // verus!
