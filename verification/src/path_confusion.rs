//! Path-confusion configuration in the vocabulary of proxies: the mode, the decode layers
//! behind the proxy, and the reasons for a denial.
//!
//! Rules are matched on the request path, but the **raw** path is forwarded upstream
//! unchanged. If the proxy and the upstream disagree about what a path *means*, a request
//! can be authorized as one path while the upstream acts on another
//! (`/x/../admin/secret`, `/admin%2fsecret`, `/%61dmin`). The guard denies a request when
//! an interpretation in its declared model selects a different rule; it never rewrites
//! what is forwarded.
//!
//! A [`GuardConfig`] of this module stands for one of [`crate::config`], which routers
//! take: see [`GuardConfig::settings`]. A [`DenyReason`] stands for the part of a
//! [`crate::config::ResolveError`] that concerns the path: see [`DenyReason::of`].

use vstd::prelude::*;

use crate::config;
use crate::config::{DecodeDepth, GuardMode, ResolveError};

pub use crate::config::{
    CaseSensitivity, StructuralChar, StructuralClass, StructuralClasses, StructuralProbe,
};

verus! {

/// Reusable deployment assumptions and enforcement settings.
///
/// Case sensitivity and decode layers are required; there is deliberately no `Default`
/// implementation.
#[derive(Clone)]
pub struct GuardConfig {
    /// Enforcement mode; defaults to scoped structural rejection.
    pub path_confusion: PathConfusion,
    /// Additional structural classes and custom probes.
    pub structural_classes: StructuralClasses,
    /// Declared maximum whole-path percent-decode depth.
    pub decode_layers: DecodeLayers,
    /// Whether downstream path interpretation folds ASCII case.
    pub case_sensitivity: CaseSensitivity,
}

impl GuardConfig {
    /// Declare the required deployment assumptions with default enforcement settings.
    #[must_use]
    pub fn new(case_sensitivity: CaseSensitivity, decode_layers: DecodeLayers) -> (config: Self)
        ensures
            config.path_confusion == PathConfusion::RejectStructural,
            config.structural_classes.is_quartet_only(),
            config.decode_layers == decode_layers,
            config.case_sensitivity == case_sensitivity,
    {
        GuardConfig {
            path_confusion: PathConfusion::default(),
            structural_classes: StructuralClasses::default(),
            decode_layers,
            case_sensitivity,
        }
    }

    /// The same settings in the form that routers take, with the default length limit.
    #[must_use]
    pub fn settings(self) -> (settings: config::GuardConfig)
        ensures
            settings == (config::GuardConfig {
                mode: self.path_confusion.as_mode(),
                structural_classes: self.structural_classes,
                decode_depth: self.decode_layers.as_depth(),
                case_sensitivity: self.case_sensitivity,
                max_path_len: config::DEFAULT_MAX_PATH_LEN,
            }),
    {
        config::GuardConfig {
            mode: match self.path_confusion {
                PathConfusion::RejectStructural => GuardMode::RejectAmbiguous,
                PathConfusion::RejectNonCanonical => GuardMode::RequireCanonical,
                PathConfusion::Off => GuardMode::Disabled,
            },
            structural_classes: self.structural_classes,
            decode_depth: if self.decode_layers.is_up_to_two() {
                DecodeDepth::UpToTwo
            } else {
                DecodeDepth::UpToOne
            },
            case_sensitivity: self.case_sensitivity,
            max_path_len: config::DEFAULT_MAX_PATH_LEN,
        }
    }
}

/// Which path-confusion guard is active.
#[derive(Debug, Clone, Copy, PartialEq, Eq, Structural)]
pub enum PathConfusion {
    /// Deny a request carrying a recognized structural form (`%2F`, `..`, `;`) when its
    /// modeled reach contains another rule. Non-structural forms (ASCII case, ordinary
    /// escapes) deny only when the declared transform would relocate the path to a
    /// different rule; NUL always denies. The default.
    RejectStructural,
    /// Deny any request carrying a recognized structural form **anywhere** in the path:
    /// every position is treated as live, and the table is not consulted. Also rejects
    /// every percent escape and, under a declared case-insensitive interpretation,
    /// uppercase.
    RejectNonCanonical,
    /// Disable the guard entirely.
    Off,
}

impl Default for PathConfusion {
    fn default() -> (mode: Self)
        ensures
            mode == PathConfusion::RejectStructural,
    {
        PathConfusion::RejectStructural
    }
}

impl PathConfusion {
    /// The mode of the same meaning.
    pub open spec fn as_mode(self) -> GuardMode {
        match self {
            PathConfusion::RejectStructural => GuardMode::RejectAmbiguous,
            PathConfusion::RejectNonCanonical => GuardMode::RequireCanonical,
            PathConfusion::Off => GuardMode::Disabled,
        }
    }

    /// Deny recognized structural forms in route-relevant positions, without modeling a
    /// backend. The default.
    #[must_use]
    pub fn reject_structural() -> (mode: Self)
        ensures
            mode == PathConfusion::RejectStructural,
    {
        PathConfusion::RejectStructural
    }

    /// Deny any path this mode considers non-canonical: strict hygiene, every recognized
    /// structural form and every percent escape.
    #[must_use]
    pub fn reject_non_canonical() -> (mode: Self)
        ensures
            mode == PathConfusion::RejectNonCanonical,
    {
        PathConfusion::RejectNonCanonical
    }

    /// Disable the path-confusion guard.
    #[must_use]
    pub fn off() -> (mode: Self)
        ensures
            mode == PathConfusion::Off,
    {
        PathConfusion::Off
    }
}

/// Whether up to two percent-decode passes may happen behind this layer. A required
/// declaration.
#[derive(Debug, Clone, Copy, PartialEq, Eq, Structural)]
pub enum DecodeLayers {
    /// At most one percent-decode pass happens behind this layer.
    Single,
    /// The whole path may receive one or two decode passes, for example because the exact
    /// behaviour of a CDN, WAF, proxy chain, or origin is uncertain. Both possible
    /// complete-path results are checked.
    UpToTwo,
}

impl DecodeLayers {
    /// The depth of the same meaning.
    pub open spec fn as_depth(self) -> DecodeDepth {
        match self {
            DecodeLayers::Single => DecodeDepth::UpToOne,
            DecodeLayers::UpToTwo => DecodeDepth::UpToTwo,
        }
    }

    /// Whether this is `UpToTwo`.
    pub fn is_up_to_two(self) -> (up_to_two: bool)
        ensures
            up_to_two == (self == DecodeLayers::UpToTwo),
    {
        matches!(self, DecodeLayers::UpToTwo)
    }
}

/// Why the guard denied a request path: which check fired, with the byte class where one
/// is attributable.
#[derive(Debug, Clone, Copy, PartialEq, Eq)]
#[non_exhaustive]
pub enum DenyReason {
    /// The route tree returned an ID absent from the rule table. This indicates an
    /// internal invariant violation, not invalid client input.
    InvalidRuleId,
    /// The supplied value was not a request path: paths must start with `/` (or be the
    /// special `*` request target) and must not contain a query (`?`) or fragment (`#`).
    InvalidPathInput,
    /// The scoped structural check: a structural form of this class could relocate the
    /// request.
    StructuralForm(StructuralClass),
    /// The precise case-fold check: lowercasing the path relocates it to a *different*
    /// rule than the raw path matched.
    CaseFoldRelocation,
    /// The precise content-decode check: one of the possible completely decoded forms
    /// relocates the path to a *different* rule.
    DecodeRelocation,
    /// The strict mode's presence deny: a structural form of this class, anywhere in the
    /// path.
    NonCanonical(StructuralClass),
    /// The strict mode's escape rule: the path carries a percent-escape at all.
    NonCanonicalEscape,
    /// A registered probe matched; carries the probe's name.
    Probe(&'static str),
    /// A path already flagged as suspicious exceeds the length cap.
    TooLong,
}

impl DenyReason {
    /// The error of the same meaning.
    pub open spec fn as_error(self) -> ResolveError {
        match self {
            DenyReason::InvalidRuleId => ResolveError::InvalidRuleId,
            DenyReason::InvalidPathInput => ResolveError::InvalidPathInput,
            DenyReason::StructuralForm(class) => ResolveError::StructuralForm(class),
            DenyReason::CaseFoldRelocation => ResolveError::CaseFoldRuleChange,
            DenyReason::DecodeRelocation => ResolveError::DecodeRuleChange,
            DenyReason::NonCanonical(class) => ResolveError::NonCanonical(class),
            DenyReason::NonCanonicalEscape => ResolveError::NonCanonicalEscape,
            DenyReason::Probe(name) => ResolveError::Probe(name),
            DenyReason::TooLong => ResolveError::TooLong,
        }
    }

    /// The reason that an error gives for denying the path; `None` where the path is fine
    /// and the method has no rule.
    pub fn of(error: ResolveError) -> (reason: Option<Self>)
        ensures
            match reason {
                Some(reason) => reason.as_error() == error,
                None => error == ResolveError::MethodNotConfigured,
            },
    {
        match error {
            ResolveError::MethodNotConfigured => None,
            ResolveError::InvalidRuleId => Some(DenyReason::InvalidRuleId),
            ResolveError::InvalidPathInput => Some(DenyReason::InvalidPathInput),
            ResolveError::StructuralForm(class) => Some(DenyReason::StructuralForm(class)),
            ResolveError::CaseFoldRuleChange => Some(DenyReason::CaseFoldRelocation),
            ResolveError::DecodeRuleChange => Some(DenyReason::DecodeRelocation),
            ResolveError::NonCanonical(class) => Some(DenyReason::NonCanonical(class)),
            ResolveError::NonCanonicalEscape => Some(DenyReason::NonCanonicalEscape),
            ResolveError::Probe(name) => Some(DenyReason::Probe(name)),
            ResolveError::TooLong => Some(DenyReason::TooLong),
        }
    }

    fn error(&self) -> (error: ResolveError)
        ensures
            error == self.as_error(),
    {
        match self {
            DenyReason::InvalidRuleId => ResolveError::InvalidRuleId,
            DenyReason::InvalidPathInput => ResolveError::InvalidPathInput,
            DenyReason::StructuralForm(class) => ResolveError::StructuralForm(*class),
            DenyReason::CaseFoldRelocation => ResolveError::CaseFoldRuleChange,
            DenyReason::DecodeRelocation => ResolveError::DecodeRuleChange,
            DenyReason::NonCanonical(class) => ResolveError::NonCanonical(*class),
            DenyReason::NonCanonicalEscape => ResolveError::NonCanonicalEscape,
            DenyReason::Probe(name) => ResolveError::Probe(name),
            DenyReason::TooLong => ResolveError::TooLong,
        }
    }

    /// The short, static denial message for the HTTP response body. Deliberately coarse:
    /// it does not vary with the attribution.
    #[must_use]
    pub fn message(&self) -> (message: &'static str)
        ensures
            message@ == self.as_error().response(),
    {
        self.error().message()
    }

    /// The attributed line for the log.
    pub fn to_string(&self) -> (text: String)
        ensures
            text@ == self.as_error().text(),
    {
        self.error().to_string()
    }
}

} // verus!
