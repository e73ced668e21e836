//! A route guard: rules are selected by request path and method, and a request whose path
//! a normalizing backend could route to another rule is denied.
//!
//! - [`path_router`] holds the router that callers use, [`registration`] what they put
//!   into it, [`config`] what they declare of their deployment.
//! - [`guard`] holds the checks; [`structural`] recognises structural bytes, [`percent`]
//!   decodes, [`anchor`] finds the prefix that nothing rewrites, [`route_tree`] matches.
//! - [`routing`] is the model of matching that the contracts speak of, [`rewriting`] the
//!   model of what a backend may make of a path. [`climbing`], [`unescaping`] and
//!   [`agreement`] reason about the latter.
//! - The modules whose names end in `laws`, and [`coverage`], state what holds of the
//!   library as a whole.

pub mod acceptance_laws;
pub mod agreement;
pub mod agreement_laws;
pub mod anchor;
pub mod anchor_laws;
pub mod canonical_laws;
pub mod climbing;
pub mod config;
pub mod cover;
pub mod coverage;
pub mod decoding_laws;
pub mod diagnostics;
pub mod diagnostics_laws;
pub mod exclusive_laws;
pub mod extension_laws;
pub mod guard;
pub mod guard_laws;
pub mod methods;
pub mod overlap_laws;
pub mod path_confusion;
pub mod path_router;
pub mod pattern;
pub mod pattern_laws;
pub mod percent;
pub mod region_laws;
pub mod registration;
pub mod rewriting;
pub mod route_laws;
pub mod route_tree;
pub mod router_laws;
pub mod routing;
pub mod scan_laws;
pub mod slot;
pub mod structural;
pub mod subtree_laws;
pub mod table;
pub mod table_laws;
pub mod text;
pub mod unescaping;
pub mod verdict_laws;
pub mod vetting_laws;
pub mod wording_laws;

pub use config::{
    CaseSensitivity, DecodeDepth, GuardConfig, GuardMode, ResolveError, ResolveErrorKind,
    StructuralChar, StructuralClass, StructuralClasses, StructuralProbe,
};
pub use diagnostics::{
    MethodGapDiagnostic, RawMatch, ResolutionExplanation, StructuralExplanation,
};
pub use path_router::{RuleMatch, RuleRouter, RuleRouterBuilder, RuleRouterError};
pub use registration::{subtree_patterns, PathRegistration, Registration};
pub use slot::MethodMatch;
