use huskarl_route_guard::config::StructuralProbe;
use huskarl_route_guard::path_confusion::{self, DecodeLayers, DenyReason, PathConfusion};
use huskarl_route_guard::{
    CaseSensitivity, DecodeDepth, GuardConfig, GuardMode, PathRegistration, Registration,
    ResolveError, RuleRouter, RuleRouterError, StructuralChar, StructuralClass, StructuralClasses,
};

fn config() -> GuardConfig {
    GuardConfig::new(CaseSensitivity::Sensitive, DecodeDepth::UpToOne)
}

fn failure(
    registrations: Vec<Registration<&'static str>>,
    config: GuardConfig,
) -> RuleRouterError {
    match RuleRouter::from_registrations("default", config, registrations) {
        Ok(_) => panic!("the table is not valid"),
        Err(error) => error,
    }
}

struct Tilde;

impl StructuralProbe for Tilde {
    fn name(&self) -> &'static str {
        "tilde \"~\""
    }

    fn matches(&self, path: &str) -> bool {
        path.contains('~')
    }
}

#[test]
fn every_denial_has_its_log_line() {
    let lines = [
        (
            ResolveError::InvalidRuleId,
            "internal routing error: matched rule ID is absent from the rule table",
        ),
        (
            ResolveError::MethodNotConfigured,
            "request method has no rule at the matched path",
        ),
        (
            ResolveError::InvalidPathInput,
            "invalid request path input: pass uri.path(), not a complete request target or URI",
        ),
        (
            ResolveError::StructuralForm(StructuralClass::DotSegment),
            "ambiguous request path: dot-segment (`.`/`..`) in a route-relevant position",
        ),
        (
            ResolveError::CaseFoldRuleChange,
            "ambiguous request path: case-folding relocates it to a different rule",
        ),
        (
            ResolveError::DecodeRuleChange,
            "ambiguous request path: percent-decoding relocates it to a different rule",
        ),
        (
            ResolveError::NonCanonical(StructuralClass::Uppercase),
            "non-canonical request path: uppercase under a case-folding backend",
        ),
        (
            ResolveError::NonCanonicalEscape,
            "non-canonical request path: percent-escape present",
        ),
        (
            ResolveError::Probe("tilde \"~\""),
            "ambiguous request path: structural probe \"tilde \\\"~\\\"\" matched",
        ),
        (
            ResolveError::TooLong,
            "suspicious request path exceeds the length cap",
        ),
    ];
    for (error, line) in lines {
        assert_eq!(error.to_string(), line);
    }
}

#[test]
fn every_class_has_its_wording() {
    let lines = [
        (StructuralClass::DotSegment, "dot-segment (`.`/`..`)"),
        (StructuralClass::Separator, "encoded or alternate path separator"),
        (StructuralClass::MatrixParam, "matrix path-parameter (`;`)"),
        (StructuralClass::NulTruncation, "NUL byte (truncation)"),
        (StructuralClass::Backslash, "backslash separator"),
        (StructuralClass::Uppercase, "uppercase under a case-folding backend"),
    ];
    for (class, line) in lines {
        assert_eq!(class.to_string(), line);
    }
}

#[test]
fn responses_are_coarse() {
    assert_eq!(ResolveError::InvalidRuleId.message(), "Internal routing error");
    assert_eq!(
        ResolveError::MethodNotConfigured.message(),
        "Method not configured for request path"
    );
    assert_eq!(ResolveError::InvalidPathInput.message(), "Invalid request path");
    for error in [
        ResolveError::StructuralForm(StructuralClass::Separator),
        ResolveError::CaseFoldRuleChange,
        ResolveError::DecodeRuleChange,
        ResolveError::Probe("p"),
    ] {
        assert_eq!(error.message(), "Ambiguous request path");
    }
    for error in [
        ResolveError::NonCanonical(StructuralClass::MatrixParam),
        ResolveError::NonCanonicalEscape,
    ] {
        assert_eq!(error.message(), "Non-canonical request path");
    }
    assert_eq!(ResolveError::TooLong.message(), "Request path too long");
}

#[test]
fn deny_reasons_speak_as_the_errors_do() {
    let pairs = [
        (ResolveError::InvalidRuleId, DenyReason::InvalidRuleId),
        (ResolveError::InvalidPathInput, DenyReason::InvalidPathInput),
        (
            ResolveError::StructuralForm(StructuralClass::Backslash),
            DenyReason::StructuralForm(StructuralClass::Backslash),
        ),
        (ResolveError::CaseFoldRuleChange, DenyReason::CaseFoldRelocation),
        (ResolveError::DecodeRuleChange, DenyReason::DecodeRelocation),
        (
            ResolveError::NonCanonical(StructuralClass::DotSegment),
            DenyReason::NonCanonical(StructuralClass::DotSegment),
        ),
        (ResolveError::NonCanonicalEscape, DenyReason::NonCanonicalEscape),
        (ResolveError::Probe("p"), DenyReason::Probe("p")),
        (ResolveError::TooLong, DenyReason::TooLong),
    ];
    for (error, reason) in pairs {
        assert_eq!(DenyReason::of(error), Some(reason));
        assert_eq!(reason.to_string(), error.to_string());
        assert_eq!(reason.message(), error.message());
    }
    assert_eq!(DenyReason::of(ResolveError::MethodNotConfigured), None);
}

#[test]
fn construction_errors_name_the_pattern() {
    let cases = [
        ("admin", "invalid route pattern \"admin\": route pattern must begin with '/'"),
        ("/a//b", "invalid route pattern \"/a//b\": route pattern has an empty path segment"),
        (
            "/v{ver}",
            "invalid route pattern \"/v{ver}\": in-segment prefix/suffix parameters (e.g. /v{ver}) are not supported",
        ),
        (
            "/f/{*rest}/x",
            "invalid route pattern \"/f/{*rest}/x\": a catch-all {*…} must be the final path segment",
        ),
        ("/u/{id", "invalid route pattern \"/u/{id\": malformed route parameter"),
        (
            "/u/{}",
            "invalid route pattern \"/u/{}\": route parameter must have a non-empty name without '*'",
        ),
    ];
    for (pattern, line) in cases {
        let error = failure(vec![Registration::route(pattern, "rule")], config());
        assert!(matches!(error, RuleRouterError::Route { .. }));
        assert_eq!(error.to_string(), line);
    }
}

#[test]
fn other_construction_errors_say_what_to_do() {
    let error = failure(vec![Registration::route("/a/..", "rule")], config());
    assert!(matches!(error, RuleRouterError::NonCanonical { .. }));
    assert_eq!(
        error.to_string(),
        "route pattern \"/a/..\" is non-canonical — it carries a recognized structural form (%2F, .., //, ;, …) the path-confusion guard treats as route structure, so requests to it would always be denied; register the canonical pattern, or set GuardMode::Disabled only if checks are enforced elsewhere"
    );
    let folding = GuardConfig::new(CaseSensitivity::Insensitive, DecodeDepth::UpToOne);
    let error = failure(vec![Registration::route("/Admin", "rule")], folding);
    assert!(matches!(error, RuleRouterError::NonCanonicalCase { .. }));
    assert_eq!(
        error.to_string(),
        "route pattern \"/Admin\" contains uppercase but the backend is declared case-insensitive; register it in lowercase (the form the backend resolves to)"
    );
    let error = failure(
        vec![Registration::route("/a", "rule").for_methods(Vec::<http::Method>::new())],
        config(),
    );
    assert!(matches!(error, RuleRouterError::EmptyMethodSet { .. }));
    assert_eq!(
        error.to_string(),
        "registration for \"/a\" has an empty method set — it would match no request; list at least one method, or use MethodMatch::Any"
    );
    let error = failure(vec![Registration::patterns(Vec::new(), "rule")], config());
    assert!(matches!(error, RuleRouterError::EmptyPatternSet));
    assert_eq!(
        error.to_string(),
        "registration has no route patterns — its rule would be unreachable; add at least one pattern or remove the registration"
    );
    assert_eq!(
        RuleRouterError::TooManyRegistrations.to_string(),
        "too many registrations: u32::MAX is reserved as the default rule's id"
    );
    let error = failure(
        vec![Registration::route("/a", "x"), Registration::route("/a", "y")],
        config(),
    );
    assert_eq!(
        error.to_string(),
        "invalid route pattern \"/a\": two routes resolve to the same path"
    );
    let error = failure(
        vec![
            Registration::exclusive_subtree("/{tenant}", "x"),
            Registration::route("/files/private", "y"),
        ],
        config(),
    );
    assert_eq!(
        error.to_string(),
        "invalid route pattern \"/*\": an exclusive_subtree has a nested route under it; remove the nested route or use subtree"
    );
}

#[test]
fn method_gaps_are_worded_with_names_and_quotes() {
    let purge = http::Method::from_bytes(b"PURGE").expect("method");
    let router = RuleRouter::builder("default", config())
        .register_path("/items/{id}", |path| {
            path.methods(vec![http::Method::POST, purge.clone()], "any item")
        })
        .register_path("/items/\"x\"", |path| path.method(http::Method::GET, "one item"))
        .build()
        .ok()
        .expect("valid table");
    let gaps = router.diagnostics();
    assert_eq!(gaps.len(), 1);
    assert_eq!(gaps[0].methods, vec![http::Method::POST, purge]);
    assert_eq!(
        gaps[0].to_string(),
        "pattern \"/items/\\\"x\\\"\" denies POST, PURGE at \"/items/\\\"x\\\"\", hiding registration 0; this method gap can also cause encoded paths in the surrounding region to be denied"
    );
}

#[test]
fn probes_answer_behind_the_configuration() {
    let classes = StructuralClasses::new().with_probe(Tilde);
    let router = RuleRouter::builder("default", config().with_structural_classes(classes))
        .build()
        .ok()
        .expect("valid table");
    assert_eq!(
        router.resolve("/~user", &http::Method::GET).unwrap_err(),
        ResolveError::Probe("tilde \"~\"")
    );
    assert!(router.resolve("/user", &http::Method::GET).is_ok());
}

#[test]
fn settings_of_either_form_agree() {
    let settings = path_confusion::GuardConfig {
        path_confusion: PathConfusion::reject_non_canonical(),
        structural_classes: StructuralClasses::new().with_overlong(&[StructuralChar::Dot]),
        decode_layers: DecodeLayers::UpToTwo,
        case_sensitivity: CaseSensitivity::Insensitive,
    }
    .settings();
    assert_eq!(settings.mode, GuardMode::RequireCanonical);
    assert_eq!(settings.decode_depth, DecodeDepth::UpToTwo);
    assert_eq!(settings.case_sensitivity, CaseSensitivity::Insensitive);
    assert!(settings.structural_classes.overlong_dot);
    assert!(!settings.structural_classes.overlong_slash);
    assert_eq!(PathConfusion::reject_structural(), PathConfusion::RejectStructural);
    assert_eq!(PathConfusion::off(), PathConfusion::Off);
}

#[test]
fn registrations_of_a_path_keep_its_rules_apart() {
    let registration = PathRegistration::path("/a")
        .method(http::Method::GET, "read")
        .method(http::Method::POST, "write");
    let router = RuleRouter::builder("default", config())
        .register(registration)
        .build()
        .ok()
        .expect("valid table");
    assert_eq!(router.resolve("/a", &http::Method::GET).unwrap().id(), Some(0));
    assert_eq!(router.resolve("/a", &http::Method::POST).unwrap().id(), Some(1));
    assert_eq!(
        router.resolve("/a", &http::Method::PUT).unwrap_err(),
        ResolveError::MethodNotConfigured
    );
}

#[test]
fn structural_classes_describe_themselves() {
    let classes = StructuralClasses::new()
        .with_backslash()
        .with_overlong(&[StructuralChar::Slash])
        .with_probe(Tilde)
        .with_probe(Tilde);
    assert_eq!(
        classes.describe(),
        "StructuralClasses { backslash: true, overlong_slash: true, overlong_dot: false, unicode: false, probes: [\"tilde \\\"~\\\"\", \"tilde \\\"~\\\"\"] }"
    );
}
