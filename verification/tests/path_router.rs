use huskarl_route_guard::{
    CaseSensitivity, DecodeDepth, GuardConfig, GuardMode, MethodMatch, Registration, ResolveError,
    RuleMatch, RuleRouter, RuleRouterError, StructuralClass, StructuralClasses,
};

fn raw_match<'a, R: std::fmt::Debug>(
    router: &'a RuleRouter<R>,
    path: &str,
    method: &http::Method,
) -> RuleMatch<'a, R> {
    router
        .matched_rule(path, method)
        .expect("valid test rule table")
}

fn denial<R: std::fmt::Debug>(
    router: &RuleRouter<R>,
    path: &str,
    method: &http::Method,
) -> Option<ResolveError> {
    router.resolve(path, method).err()
}

/// same rule value into one [`Registration`] (rule ids are then positional, so a
/// row's rule value equals its registration's id in these tests).
fn router(rows: &[(&str, u32)], pc: GuardMode) -> Result<RuleRouter<u32>, RuleRouterError> {
    let mut regs: Vec<Registration<u32>> = Vec::new();
    for (pattern, rule) in rows {
        match regs.last_mut() {
            Some(reg) if reg.rule == *rule => reg.patterns.push((*pattern).to_owned()),
            _ => regs.push(Registration::route(*pattern, *rule)),
        }
    }
    RuleRouter::from_registrations(
        u32::MAX,
        GuardConfig {
            mode: pc,
            structural_classes: StructuralClasses::new(),
            decode_depth: DecodeDepth::UpToOne,
            case_sensitivity: CaseSensitivity::Sensitive,
            max_path_len: 8192,
        },
        regs,
    )
}

fn denied(r: &RuleRouter<u32>, path: &str) -> bool {
    denial(r, path, &http::Method::GET).is_some()
}

#[test]
fn invalid_rule_id_denies_instead_of_authorizing_with_default() {
    let mut r = RuleRouter::from_registrations(
        "public",
        GuardConfig::new(CaseSensitivity::Sensitive, DecodeDepth::UpToOne),
        vec![Registration::route("/admin", "protected")],
    )
    .expect("build");
    // Inject an invariant violation that public construction cannot create.
    r.rules.clear();
    assert_eq!(
        r.resolve("/admin", &http::Method::GET),
        Err(ResolveError::InvalidRuleId)
    );
    assert!(
        r.resolve("/unmatched", &http::Method::GET)
            .expect("default")
            .is_default()
    );
}

#[test]
fn raw_inspection_reports_an_invalid_rule_id() {
    let mut r = router(&[("/admin", 0)], GuardMode::Disabled).expect("build");
    r.rules.clear();
    assert_eq!(
        r.inspect_raw("/admin", &http::Method::GET),
        Err(ResolveError::InvalidRuleId)
    );
}

#[test]
fn method_qualified_subtrees_allow_structural_keys_for_listed_methods() {
    for registration in [
        Registration::subtree("/files", "files"),
        Registration::exclusive_subtree("/files", "files"),
    ] {
        let config = GuardConfig::new(CaseSensitivity::Sensitive, DecodeDepth::UpToOne);
        let unrestricted = RuleRouter::from_registrations(
            "default",
            config.clone(),
            vec![registration.clone()],
        )
        .expect("build");
        let restricted = RuleRouter::from_registrations(
            "default",
            config,
            vec![registration.for_methods(http::Method::GET)],
        )
        .expect("build");
        assert!(
            unrestricted
                .resolve("/files/a%2fb", &http::Method::GET)
                .is_ok()
        );
        assert_eq!(
            *restricted
                .resolve("/files/a%2fb", &http::Method::GET)
                .expect("same GET rule")
                .rule(),
            "files"
        );
        assert!(
            restricted
                .resolve("/files/a%2fb", &http::Method::POST)
                .expect("uniform default")
                .is_default()
        );
        assert_eq!(
            *restricted
                .resolve("/files/clean", &http::Method::GET)
                .expect("clean")
                .rule(),
            "files"
        );
    }
}

#[test]
fn resolve_runs_verdict_then_match() {
    let r = router(
        &[("/admin", 0), ("/admin/", 0), ("/admin/{*rest}", 0)],
        GuardMode::RejectAmbiguous,
    )
    .expect("build");
    // Clean paths resolve to their rule (or the default).
    assert_eq!(
        r.resolve("/admin/x", &http::Method::GET),
        Ok(RuleMatch::Matched { id: 0, rule: &0 })
    );
    assert_eq!(
        r.resolve("/nope", &http::Method::GET),
        Ok(RuleMatch::Default { rule: &u32::MAX })
    );
    // An ambiguous path is denied before any rule is offered — the same verdict
    // `ambiguous` reports, attributed to the byte class that fired.
    let denied = r.resolve("/admin%2fx", &http::Method::GET);
    assert_eq!(
        denied,
        Err(ResolveError::StructuralForm(StructuralClass::Separator))
    );
    assert_eq!(
        denied.err(),
        denial(&r, "/admin%2fx", &http::Method::GET)
    );
    // The response-body string stays coarse; the attribution is for the log.
    assert_eq!(
        denied.err().expect("denied").message(),
        "Ambiguous request path"
    );
}

#[test]
fn resolve_rejects_non_path_input_even_when_guard_is_off() {
    let r = router(&[("/admin", 0)], GuardMode::Disabled).expect("build");
    for input in [
        "/admin?x=1",
        "/admin#fragment",
        "https://example.test/admin",
        "admin",
        "",
    ] {
        assert_eq!(
            r.resolve(input, &http::Method::GET),
            Err(ResolveError::InvalidPathInput),
            "{input:?}"
        );
        assert_eq!(
            denial(&r, input, &http::Method::GET),
            Some(ResolveError::InvalidPathInput),
            "{input:?}"
        );
    }

    assert!(r.resolve("*", &http::Method::OPTIONS).is_ok());
    assert!(
        raw_match(&r, "/admin?x=1", &http::Method::GET)
            .is_default(),
        "the explicitly unchecked API retains raw matcher semantics"
    );
}

#[test]
fn matches_and_defaults() {
    let r = router(
        &[("/admin", 0), ("/admin/", 0), ("/admin/{*rest}", 0)],
        GuardMode::RejectAmbiguous,
    )
    .expect("build");
    assert_eq!(
        raw_match(&r, "/admin", &http::Method::GET).id(),
        Some(0)
    );
    assert_eq!(
        raw_match(&r, "/admin/x", &http::Method::GET).id(),
        Some(0)
    );
    assert!(
        raw_match(&r, "/nope", &http::Method::GET)
            .is_default()
    );
}

#[test]
fn uniform_subtree_scopes_encoded_slash() {
    // Scoped denial: a fully-registered single-rule subtree tolerates an encoded
    // slash beneath it (every reachable rule past the anchor is the matched one) —
    // no exclusive_subtree declaration needed. Dot-segments anchor at the root, where
    // this table is not uniform, so traversal still denies.
    let r = router(
        &[("/files", 0), ("/files/", 0), ("/files/{*rest}", 0)],
        GuardMode::RejectAmbiguous,
    )
    .expect("build");
    assert!(!denied(&r, "/files/a%2fb"));
    assert!(!denied(&r, "/files/a/../b"), "climb resolves within /files");
    assert!(denied(&r, "/files/../b"), "climb escapes the subtree");
    assert!(!denied(&r, "/files/clean"));

    // Adding a nested rule breaks this subtree's uniformity, flipping the
    // tolerated byte back to a deny. Other additions can restore uniformity.
    let r = router(
        &[
            ("/files", 0),
            ("/files/", 0),
            ("/files/{*rest}", 0),
            ("/files/secret", 1),
        ],
        GuardMode::RejectAmbiguous,
    )
    .expect("build");
    assert!(denied(&r, "/files/a%2fb"));
}

#[test]
fn rejects_prefix_suffix_param() {
    let err = router(&[("/v{ver}", 0)], GuardMode::RejectAmbiguous)
        .err().expect("prefix param rejected");
    assert!(matches!(err, RuleRouterError::Route { .. }));
}

#[test]
fn rejects_invalid_matchit_params() {
    for pattern in ["/{}", "/{*}", "/{foo*bar}", "/files/{*rest}/"] {
        let err = RuleRouter::builder(
            0,
            GuardConfig::new(CaseSensitivity::Sensitive, DecodeDepth::UpToOne),
        )
        .route(pattern, 1)
        .build()
        .err().expect("invalid matchit pattern must fail the build");
        assert!(matches!(err, RuleRouterError::Route { .. }), "{pattern}");
    }
}

#[test]
fn canonicality_ignores_parameter_names() {
    let router = RuleRouter::builder(
        0,
        GuardConfig::new(CaseSensitivity::Insensitive, DecodeDepth::UpToOne),
    )
    .route("/{UserId}", 1)
    .route("/items/{x;y}", 2)
    .build()
    .expect("parameter names are metadata, not path bytes");

    assert_eq!(
        *raw_match(&router, "/value", &http::Method::GET)
            .rule(),
        1
    );
    assert_eq!(
        *raw_match(&router, "/items/value", &http::Method::GET)
            .rule(),
        2
    );

    let err = RuleRouter::builder(
        0,
        GuardConfig::new(CaseSensitivity::Insensitive, DecodeDepth::UpToOne),
    )
    .route("/Admin/{UserId}", 1)
    .build()
    .err().expect("uppercase literal path bytes remain non-canonical");
    assert!(matches!(err, RuleRouterError::NonCanonicalCase { .. }));
}

#[test]
fn rejects_non_canonical_pattern() {
    let err = router(&[("/a/../b", 0)], GuardMode::RejectAmbiguous)
        .err().expect("non-canonical pattern rejected");
    assert!(matches!(err, RuleRouterError::NonCanonical { .. }));
}

#[test]
fn opaque_blob_tolerates_separator_via_registration_flag() {
    // The `opaque` registration flag (set by the builder's exclusive_subtree) reaches
    // the tree as a build-time guarantee; runtime tolerance comes from the
    // subtree's uniformity — structural bytes in the tail flow, a climb out of it
    // denies.
    let r = RuleRouter::from_registrations(
        u32::MAX,
        GuardConfig {
            mode: GuardMode::RejectAmbiguous,
            structural_classes: StructuralClasses::new(),
            decode_depth: DecodeDepth::UpToOne,
            case_sensitivity: CaseSensitivity::Sensitive,
            max_path_len: 8192,
        },
        vec![Registration::exclusive_subtree("/files", 0)],
    )
    .expect("build");
    assert!(!denied(&r, "/files/a%2fb"));
    assert!(denied(&r, "/files/../b"), "climb out of the blob");
    assert!(!denied(&r, "/files/a/../b"), "climb within the blob");
}

#[test]
fn opaque_blob_with_sibling_is_build_error() {
    let err = RuleRouter::from_registrations(
        u32::MAX,
        GuardConfig {
            mode: GuardMode::RejectAmbiguous,
            structural_classes: StructuralClasses::new(),
            decode_depth: DecodeDepth::UpToOne,
            case_sensitivity: CaseSensitivity::Sensitive,
            max_path_len: 8192,
        },
        vec![
            Registration::exclusive_subtree("/files", 0),
            Registration::route("/files/secret", 1),
        ],
    )
    .err().expect("opaque blob with sibling");
    assert!(matches!(&err, RuleRouterError::Route { .. }));
    // The error names where the blob is rooted.
    assert!(err.to_string().contains("/files"));
}

#[test]
fn error_display_names_the_pattern() {
    let err = router(&[("/a/../b", 0)], GuardMode::RejectAmbiguous)
        .err().expect("non-canonical pattern rejected");
    assert!(err.to_string().contains("/a/../b"));
}

#[test]
fn conflict_error_names_the_pattern() {
    let err = router(&[("/dup", 0), ("/dup", 1)], GuardMode::RejectAmbiguous)
        .err().expect("conflicting routes rejected");
    assert!(matches!(&err, RuleRouterError::Route { .. }));
    assert!(err.to_string().contains("/dup"));
}

#[test]
fn rule_ids_are_registration_positions() {
    // Rule identity is positional: patterns in one registration share its index,
    // and there is no id for a caller to get wrong.
    let r = RuleRouter::from_registrations(
        u32::MAX,
        GuardConfig {
            mode: GuardMode::RejectAmbiguous,
            structural_classes: StructuralClasses::new(),
            decode_depth: DecodeDepth::UpToOne,
            case_sensitivity: CaseSensitivity::Sensitive,
            max_path_len: 8192,
        },
        vec![
            Registration::subtree("/admin", 10),
            Registration::route("/health", 20),
        ],
    )
    .expect("build");
    assert_eq!(
        raw_match(&r, "/admin/x", &http::Method::GET),
        RuleMatch::Matched { id: 0, rule: &10 }
    );
    assert_eq!(
        raw_match(&r, "/health", &http::Method::GET),
        RuleMatch::Matched { id: 1, rule: &20 }
    );
}

#[test]
fn rejects_empty_method_set() {
    // An empty OneOf would match no request at all — its paths would silently
    // fall to the default rule.
    let err = RuleRouter::from_registrations(
        u32::MAX,
        GuardConfig {
            mode: GuardMode::RejectAmbiguous,
            structural_classes: StructuralClasses::new(),
            decode_depth: DecodeDepth::UpToOne,
            case_sensitivity: CaseSensitivity::Sensitive,
            max_path_len: 8192,
        },
        vec![Registration::route("/x", 0).for_methods(Vec::new())],
    )
    .err().expect("empty method set rejected");
    assert!(matches!(&err, RuleRouterError::EmptyMethodSet { pattern } if pattern == "/x"));
    assert!(err.to_string().contains("/x"));
}

#[test]
fn rejects_empty_pattern_set() {
    let err = RuleRouter::from_registrations(
        u32::MAX,
        GuardConfig {
            mode: GuardMode::RejectAmbiguous,
            structural_classes: StructuralClasses::new(),
            decode_depth: DecodeDepth::UpToOne,
            case_sensitivity: CaseSensitivity::Sensitive,
            max_path_len: 8192,
        },
        vec![Registration {
            patterns: Vec::new(),
            rule: 0,
            opaque: false,
            method: MethodMatch::Any,
        }],
    )
    .err().expect("empty pattern set rejected");
    assert!(matches!(err, RuleRouterError::EmptyPatternSet));
}

#[test]
fn duplicate_method_in_set_is_conflict() {
    let err = RuleRouter::from_registrations(
        u32::MAX,
        GuardConfig {
            mode: GuardMode::RejectAmbiguous,
            structural_classes: StructuralClasses::new(),
            decode_depth: DecodeDepth::UpToOne,
            case_sensitivity: CaseSensitivity::Sensitive,
            max_path_len: 8192,
        },
        vec![Registration::route("/x", 0).for_methods([http::Method::GET, http::Method::GET])],
    )
    .err().expect("duplicate method in one set rejected");
    assert!(matches!(&err, RuleRouterError::Route { .. }));
}

// ── builder ──────────────────────────────────────────────────────────────

#[test]
fn builder_assigns_grouped_ids() {
    let r = RuleRouter::builder(
        u32::MAX,
        GuardConfig::new(CaseSensitivity::Sensitive, DecodeDepth::UpToOne),
    )
    .subtree("/admin", 10)
    .route("/health", 20)
    .build()
    .expect("build");
    // The whole subtree shares one rule id; the route gets the next.
    assert_eq!(
        raw_match(&r, "/admin", &http::Method::GET),
        RuleMatch::Matched { id: 0, rule: &10 }
    );
    assert_eq!(
        raw_match(&r, "/admin/x/y", &http::Method::GET),
        RuleMatch::Matched { id: 0, rule: &10 }
    );
    assert_eq!(
        raw_match(&r, "/health", &http::Method::GET),
        RuleMatch::Matched { id: 1, rule: &20 }
    );
    assert_eq!(
        raw_match(&r, "/nope", &http::Method::GET),
        RuleMatch::Default { rule: &u32::MAX }
    );
}

#[test]
fn builder_defaults_to_reject_structural() {
    // path_confusion / structural_classes are optional with safe defaults; the
    // guard runs without either being set.
    let r = RuleRouter::builder(
        u32::MAX,
        GuardConfig::new(CaseSensitivity::Sensitive, DecodeDepth::UpToOne),
    )
    .subtree("/admin", 0)
    .build()
    .expect("build");
    assert!(
        denial(&r, "/admin%2fx", &http::Method::GET)
            .is_some()
    );
    assert!(denial(&r, "/admin/x", &http::Method::GET).is_none());
}

#[test]
fn builder_blob_subtree_declares_opaque_tail() {
    let r = RuleRouter::builder(
        u32::MAX,
        GuardConfig::new(CaseSensitivity::Sensitive, DecodeDepth::UpToOne),
    )
    .exclusive_subtree("/files", 0)
    .build()
    .expect("build");
    assert!(
        denial(&r, "/files/a%2fb", &http::Method::GET)
            .is_none(),
        "encoded slash tolerated inside the blob key"
    );
    assert!(
        denial(&r, "/files/../b", &http::Method::GET)
            .is_some(),
        "dot-segment climbing out of the blob still denied"
    );
    assert!(
        denial(&r, "/files/a/../b", &http::Method::GET)
            .is_none(),
        "dot-segment resolving within the blob tolerated"
    );
}

#[test]
fn builder_blob_subtree_with_nested_route_is_error() {
    let err = RuleRouter::builder(
        u32::MAX,
        GuardConfig::new(CaseSensitivity::Sensitive, DecodeDepth::UpToOne),
    )
    .exclusive_subtree("/files", 0)
    .route("/files/secret", 1)
    .build()
    .err().expect("nested route under a blob");
    assert!(matches!(err, RuleRouterError::Route { .. }));
}

#[test]
fn builder_method_qualified_registrations() {
    let r = RuleRouter::builder(
        u32::MAX,
        GuardConfig::new(CaseSensitivity::Sensitive, DecodeDepth::UpToOne),
    )
    .register(Registration::route("/x", 0).for_methods(http::Method::GET))
    .route("/x", 1)
    .register(Registration::subtree("/api", 2).for_methods(http::Method::POST))
    .build()
    .expect("build");
    // Specific method wins; other methods fall to the wildcard rule on that path.
    assert_eq!(raw_match(&r, "/x", &http::Method::GET).id(), Some(0));
    assert_eq!(
        raw_match(&r, "/x", &http::Method::POST).id(),
        Some(1)
    );
    // A method-only subtree leaves other methods on the default rule.
    assert_eq!(
        raw_match(&r, "/api/v1", &http::Method::POST).id(),
        Some(2)
    );
    assert!(
        raw_match(&r, "/api/v1", &http::Method::GET)
            .is_default()
    );
}

#[test]
fn precise_verdicts_use_the_request_method() {
    let registrations = || {
        vec![
            // GET deliberately has the same rule id at the wildcard and literal
            // terminals. It is the method-blind representative at both positions.
            Registration {
                patterns: vec!["/x/{id}".to_owned(), "/x/a".to_owned()],
                rule: 0,
                opaque: false,
                method: http::Method::GET.into(),
            },
            Registration::route("/x/{id}", 1).for_methods(http::Method::POST),
            Registration::route("/x/a", 2).for_methods(http::Method::POST),
        ]
    };

    let decoded = RuleRouter::from_registrations(
        u32::MAX,
        GuardConfig {
            mode: GuardMode::RejectAmbiguous,
            structural_classes: StructuralClasses::new(),
            decode_depth: DecodeDepth::UpToOne,
            case_sensitivity: CaseSensitivity::Sensitive,
            max_path_len: 8192,
        },
        registrations(),
    )
    .expect("build");
    // `%61` moves POST from the wildcard registration to the literal one, while
    // GET stays on registration 0. The verdict must judge the requested method,
    // not GET's identical representative ids.
    assert_eq!(denial(&decoded, "/x/%61", &http::Method::GET), None);
    assert_eq!(
        denial(&decoded, "/x/%61", &http::Method::POST),
        Some(ResolveError::DecodeRuleChange)
    );
    assert_eq!(
        decoded.resolve("/x/%61", &http::Method::POST),
        Err(ResolveError::DecodeRuleChange)
    );

    let folded = RuleRouter::from_registrations(
        u32::MAX,
        GuardConfig {
            mode: GuardMode::RejectAmbiguous,
            structural_classes: StructuralClasses::new(),
            decode_depth: DecodeDepth::UpToOne,
            case_sensitivity: CaseSensitivity::Insensitive,
            max_path_len: 8192,
        },
        registrations(),
    )
    .expect("build");
    assert_eq!(denial(&folded, "/x/A", &http::Method::GET), None);
    assert_eq!(
        denial(&folded, "/x/A", &http::Method::POST),
        Some(ResolveError::CaseFoldRuleChange)
    );
    assert_eq!(
        folded.resolve("/x/A", &http::Method::POST),
        Err(ResolveError::CaseFoldRuleChange)
    );
}

#[test]
fn up_to_two_decode_preserves_single_pass_denials() {
    let registrations = || {
        vec![
            // The raw and twice-decoded forms are both rule 0, while the
            // once-decoded form is rule 1: A -> B -> A.
            Registration {
                patterns: vec!["/x/{id}".to_owned(), "/x/a".to_owned()],
                rule: 0,
                opaque: false,
                method: MethodMatch::Any,
            },
            Registration::route("/x/%61", 1),
        ]
    };
    let build = |layers| {
        RuleRouter::from_registrations(
            u32::MAX,
            GuardConfig {
                mode: GuardMode::RejectAmbiguous,
                structural_classes: StructuralClasses::new(),
                decode_depth: layers,
                case_sensitivity: CaseSensitivity::Sensitive,
                max_path_len: 8192,
            },
            registrations(),
        )
        .expect("build")
    };

    let path = "/x/%2561";
    let single = build(DecodeDepth::UpToOne);
    assert_eq!(
        denial(&single, path, &http::Method::GET),
        Some(ResolveError::DecodeRuleChange)
    );

    let up_to_two = build(DecodeDepth::UpToTwo);
    assert_eq!(
        denial(&up_to_two, path, &http::Method::GET),
        Some(ResolveError::DecodeRuleChange),
        "checking a second pass must not erase the first-pass relocation"
    );
}

#[test]
fn builder_supports_dynamic_registration() {
    // Runtime-sized tables register in bulk (`subtrees`/`routes`), and — because
    // the builder has a single type and supports reassignment in a loop.
    let subtrees = vec![("/admin", 0_u32), ("/api", 1)];
    let routes = vec![("/health", 2_u32), ("/version", 3)];
    let r = RuleRouter::builder(
        u32::MAX,
        GuardConfig::new(CaseSensitivity::Sensitive, DecodeDepth::UpToOne),
    )
    .register_all(
        subtrees
            .into_iter()
            .map(|(path, rule)| Registration::subtree(path, rule))
            .collect::<Vec<_>>(),
    )
    .register_all(
        routes
            .into_iter()
            .map(|(path, rule)| Registration::route(path, rule))
            .collect::<Vec<_>>(),
    )
    .build()
    .expect("build");
    // Each item is its own registration: ids stay per-subtree/per-route.
    assert_eq!(
        raw_match(&r, "/admin/x", &http::Method::GET).id(),
        Some(0)
    );
    assert_eq!(
        raw_match(&r, "/api/v1", &http::Method::GET).id(),
        Some(1)
    );
    assert_eq!(
        raw_match(&r, "/health", &http::Method::GET).id(),
        Some(2)
    );
    assert_eq!(
        raw_match(&r, "/version", &http::Method::GET).id(),
        Some(3)
    );

    // The loop form for mixed-kind dynamic tables.
    let mut b = RuleRouter::builder(
        u32::MAX,
        GuardConfig::new(CaseSensitivity::Sensitive, DecodeDepth::UpToOne),
    );
    for (path, rule) in [("/admin", 0_u32), ("/public", 1)] {
        b = b.subtree(path, rule);
    }
    let r = b.build().expect("build");
    assert_eq!(
        raw_match(&r, "/public/x", &http::Method::GET).id(),
        Some(1)
    );
}

#[test]
fn multi_method_registration_shares_one_rule_id() {
    // "This rule for GET and HEAD" is one registration → one rule id, so the two
    // methods can never drift apart and movement between them is not a relocation.
    let r = RuleRouter::builder(
        u32::MAX,
        GuardConfig::new(CaseSensitivity::Sensitive, DecodeDepth::UpToOne),
    )
    .register(Registration::route("/x", 0).for_methods([http::Method::GET, http::Method::HEAD]))
    .register(
        Registration::subtree("/api", 1)
            .for_methods(vec![http::Method::PUT, http::Method::POST]),
    )
    .build()
    .expect("build");
    assert_eq!(raw_match(&r, "/x", &http::Method::GET).id(), Some(0));
    assert_eq!(
        raw_match(&r, "/x", &http::Method::HEAD).id(),
        Some(0)
    );
    assert!(raw_match(&r, "/x", &http::Method::POST).is_default());
    assert_eq!(
        raw_match(&r, "/api/v1", &http::Method::PUT).id(),
        Some(1)
    );
    assert_eq!(
        raw_match(&r, "/api/v1", &http::Method::POST).id(),
        Some(1)
    );
    assert!(
        raw_match(&r, "/api/v1", &http::Method::DELETE)
            .is_default()
    );
}
