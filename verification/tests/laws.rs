use http::Method;
use huskarl_route_guard::anchor::{raise, stable_prefix};
use huskarl_route_guard::config::StructuralProbe;
use huskarl_route_guard::diagnostics::overlap_path;
use huskarl_route_guard::pattern::lower_matchit;
use huskarl_route_guard::percent::percent_decode_once;
use huskarl_route_guard::{
    CaseSensitivity, DecodeDepth, GuardConfig, GuardMode, PathRegistration, RawMatch,
    Registration, ResolveError, RuleRouter, StructuralChar, StructuralClass, StructuralClasses,
};

const PATHS: [&str; 22] = [
    "/",
    "/files",
    "/files/",
    "/files/a",
    "/files/a%2fb",
    "/files/a/../b",
    "/files/a/%2e%2e/b",
    "/files/a;v=1",
    "/files//a",
    "/files/../admin",
    "/files/a%252fb",
    "/files/a%C0%AFb",
    "/files/a\\b",
    "/files/%",
    "/files/%41",
    "/Files/a",
    "/FILES/A%2fb",
    "/%66iles/a",
    "/admin",
    "/%61dmin",
    "/a%00",
    "*",
];

fn config(case: CaseSensitivity, depth: DecodeDepth) -> GuardConfig {
    GuardConfig::new(case, depth)
}

fn plain() -> GuardConfig {
    config(CaseSensitivity::Sensitive, DecodeDepth::UpToOne)
}

fn routes() -> Vec<Registration<u32>> {
    vec![
        Registration::subtree("/files", 0),
        Registration::route("/admin", 1),
        Registration::route("/{one}", 2),
    ]
}

fn router(config: GuardConfig) -> RuleRouter<u32> {
    RuleRouter::from_registrations(99, config, routes()).ok().expect("valid table")
}

fn denies(router: &RuleRouter<u32>, path: &str) -> bool {
    router.resolve(path, &Method::GET).is_err()
}

struct Semicolon;

impl StructuralProbe for Semicolon {
    fn name(&self) -> &'static str {
        "semicolon"
    }

    fn matches(&self, path: &str) -> bool {
        path.contains(';')
    }
}

#[test]
fn each_further_setting_only_adds_denials() {
    let loose = router(plain());
    let stricter = [
        config(CaseSensitivity::Sensitive, DecodeDepth::UpToTwo),
        config(CaseSensitivity::Insensitive, DecodeDepth::UpToOne),
        config(CaseSensitivity::Insensitive, DecodeDepth::UpToTwo)
            .with_mode(GuardMode::RequireCanonical)
            .with_structural_classes(StructuralClasses::new().with_backslash()),
        plain().with_structural_classes(StructuralClasses::new().with_backslash()),
        plain().with_structural_classes(
            StructuralClasses::new().with_overlong(&[StructuralChar::Slash, StructuralChar::Dot]),
        ),
        plain().with_structural_classes(StructuralClasses::new().with_fullwidth_structure()),
        plain().with_structural_classes(StructuralClasses::new().with_probe(Semicolon)),
        plain().with_max_path_len(8),
    ];
    for (i, settings) in stricter.into_iter().enumerate() {
        let strict = router(settings);
        for path in PATHS {
            assert!(!denies(&loose, path) || denies(&strict, path), "{i}: {path}");
        }
    }
    let deeper = router(config(CaseSensitivity::Sensitive, DecodeDepth::UpToTwo));
    let split = "/%2561dmin";
    assert!(!denies(&loose, split) && denies(&deeper, split));
}

#[test]
fn the_strict_mode_denies_what_the_default_mode_denies() {
    for case in [CaseSensitivity::Sensitive, CaseSensitivity::Insensitive] {
        let loose = router(config(case, DecodeDepth::UpToTwo));
        let strict =
            router(config(case, DecodeDepth::UpToTwo).with_mode(GuardMode::RequireCanonical));
        for path in PATHS {
            assert!(!denies(&loose, path) || denies(&strict, path), "{path}");
        }
    }
}

#[test]
fn a_stray_percent_sign_counts_toward_the_cap_in_the_default_mode() {
    for path in ["/files/100%", "/files/%", "/files/%4", "/files/%zz"] {
        let loose = router(plain().with_max_path_len(4));
        assert_eq!(loose.resolve(path, &Method::GET).unwrap_err(), ResolveError::TooLong, "{path}");
        let at_limit = router(plain().with_max_path_len(path.len()));
        assert!(!denies(&at_limit, path), "{path}");
        let strict = plain().with_mode(GuardMode::RequireCanonical).with_max_path_len(4);
        assert!(!denies(&router(strict.clone()), path), "{path}");
        // Where the strict mode has a reason of its own to look, it measures too.
        let probing = StructuralClasses::new().with_probe(Semicolon);
        let probing = router(strict.with_structural_classes(probing));
        assert_eq!(
            probing.resolve(path, &Method::GET).unwrap_err(),
            ResolveError::TooLong,
            "{path}"
        );
    }
    let long = format!("/files/{}%", "a".repeat(8192));
    assert_eq!(
        router(plain()).resolve(&long, &Method::GET).unwrap_err(),
        ResolveError::TooLong
    );
    for mode in [GuardMode::RejectAmbiguous, GuardMode::RequireCanonical] {
        let router = router(plain().with_mode(mode).with_max_path_len(4));
        assert_eq!(
            router.resolve("/files/100%25", &Method::GET).unwrap_err(),
            ResolveError::TooLong
        );
    }
}

fn texts(patterns: &[&str]) -> Vec<String> {
    patterns.iter().map(|pattern| pattern.to_string()).collect()
}

fn folded_apart(config: GuardConfig) -> RuleRouter<u32> {
    let rows = vec![
        Registration::patterns(texts(&["/x/%41", "/x/a"]), 0),
        Registration::route("/x/{id}", 1),
    ];
    RuleRouter::from_registrations(9, config, rows).ok().expect("valid table")
}

#[test]
fn decoding_is_compared_unfolded_as_well() {
    // Decoded, the path belongs to the other rule; decoded and folded, to its own again.
    for depth in [DecodeDepth::UpToOne, DecodeDepth::UpToTwo] {
        for case in [CaseSensitivity::Sensitive, CaseSensitivity::Insensitive] {
            let router = folded_apart(config(case, depth));
            assert_eq!(
                router.resolve("/x/%41", &Method::GET).unwrap_err(),
                ResolveError::DecodeRuleChange
            );
            assert_eq!(router.resolve("/x/a", &Method::GET).unwrap().id(), Some(0));
            assert_eq!(router.resolve("/x/b", &Method::GET).unwrap().id(), Some(1));
        }
    }
    // The second pass is compared both ways too.
    let rows = || {
        vec![
            Registration::patterns(texts(&["/x/%2541", "/x/%41", "/x/a"]), 0),
            Registration::route("/x/{id}", 1),
        ]
    };
    let build = |config: GuardConfig| {
        RuleRouter::from_registrations(9, config, rows()).ok().expect("valid table")
    };
    let once = build(config(CaseSensitivity::Insensitive, DecodeDepth::UpToOne));
    let twice = build(config(CaseSensitivity::Insensitive, DecodeDepth::UpToTwo));
    assert_eq!(once.resolve("/x/%2541", &Method::GET).unwrap().id(), Some(0));
    assert_eq!(
        twice.resolve("/x/%2541", &Method::GET).unwrap_err(),
        ResolveError::DecodeRuleChange
    );
    // Folding still denies on its own account.
    let rows = vec![Registration::route("/y/a", 0)];
    let folding = RuleRouter::from_registrations(
        9,
        config(CaseSensitivity::Insensitive, DecodeDepth::UpToOne),
        rows,
    )
    .ok()
    .expect("valid table");
    assert_eq!(
        folding.resolve("/y/%41", &Method::GET).unwrap_err(),
        ResolveError::DecodeRuleChange
    );
}

#[test]
fn folding_case_keeps_every_denial() {
    for depth in [DecodeDepth::UpToOne, DecodeDepth::UpToTwo] {
        let sensitive = router(config(CaseSensitivity::Sensitive, depth));
        let insensitive = router(config(CaseSensitivity::Insensitive, depth));
        for path in PATHS {
            assert!(!denies(&sensitive, path) || denies(&insensitive, path), "{path}");
        }
    }
    let mode = GuardMode::RequireCanonical;
    let sensitive = router(plain().with_mode(mode));
    let insensitive =
        router(config(CaseSensitivity::Insensitive, DecodeDepth::UpToOne).with_mode(mode));
    for path in PATHS {
        assert!(!denies(&sensitive, path) || denies(&insensitive, path), "{path}");
    }
    assert_eq!(
        insensitive.resolve("/Files/a", &Method::GET).unwrap_err(),
        ResolveError::NonCanonical(StructuralClass::Uppercase)
    );
}

#[test]
fn a_backend_that_does_less_than_declared_selects_the_same_rule() {
    // Declared to fold case and to decode twice; the backend decodes once and folds nothing.
    let guarded = router(config(CaseSensitivity::Insensitive, DecodeDepth::UpToTwo));
    let backend = router(plain().with_mode(GuardMode::Disabled));
    let mut accepted = 0;
    for path in PATHS {
        if let Ok(matched) = guarded.resolve(path, &Method::GET) {
            let decoded = String::from_utf8(percent_decode_once(path.as_bytes()));
            if let Ok(decoded) = decoded {
                let reached = backend.resolve(&decoded, &Method::GET).expect("routed");
                assert_eq!(reached.id(), matched.id(), "{path}");
                accepted += 1;
            }
        }
    }
    assert!(accepted > 5);
    let guarded = folded_apart(config(CaseSensitivity::Insensitive, DecodeDepth::UpToTwo));
    assert!(denies(&guarded, "/x/%41"));
    assert_eq!(guarded.resolve("/x/%42", &Method::GET).unwrap().id(), Some(1));
}

#[test]
fn canonical_spellings_pass_in_every_mode() {
    for mode in [GuardMode::RejectAmbiguous, GuardMode::RequireCanonical, GuardMode::Disabled] {
        for case in [CaseSensitivity::Sensitive, CaseSensitivity::Insensitive] {
            let router =
                router(config(case, DecodeDepth::UpToTwo).with_mode(mode).with_max_path_len(3));
            for path in [
                "/",
                "/files/a.b/c-d",
                "/admin",
                "/nowhere/at/all",
                "/...",
                "*",
            ] {
                assert!(!denies(&router, path), "{path}");
            }
        }
    }
}

#[test]
fn a_nul_is_denied_in_every_active_mode() {
    for mode in [GuardMode::RejectAmbiguous, GuardMode::RequireCanonical] {
        let router =
            router(config(CaseSensitivity::Sensitive, DecodeDepth::UpToTwo).with_mode(mode));
        for path in ["/files/a\0", "/files/a%00", "/files/a%2500"] {
            assert!(denies(&router, path), "{path}");
        }
    }
    let off = router(plain().with_mode(GuardMode::Disabled));
    assert!(!denies(&off, "/files/a%00"));
}

#[test]
fn an_accepted_structural_form_needs_no_further_comparison() {
    let router = router(config(CaseSensitivity::Insensitive, DecodeDepth::UpToTwo));
    let spellings = ["/files/A%2FB", "/files/A/B", "/files/a/b", "/files/a%2fb"];
    assert_eq!(router.structural_anchor(spellings[0]), Some("/files/"));
    for spelling in spellings {
        let matched = router.resolve(spelling, &Method::GET).ok().expect("accepted");
        assert_eq!(matched.id(), Some(0));
    }
}

#[test]
fn a_bad_offset_falls_back_to_the_root() {
    let path = "/a/é";
    assert_eq!(stable_prefix(path, 0), "/");
    assert_eq!(stable_prefix(path, 2), "/");
    assert_eq!(stable_prefix(path, 3), "/a/");
    assert_eq!(stable_prefix(path, 4), "/");
    assert_eq!(stable_prefix(path, 5), "/a/");
    assert_eq!(stable_prefix(path, 6), "/");
    assert_eq!(stable_prefix("/a/b", usize::MAX), "/");
    assert_eq!(raise("/a/b/", 1), "/a/");
    assert_eq!(raise("/a/b/", 5), "/");
    assert_eq!(raise("/a/b", 1), "/a/");
    assert_eq!(raise(path, 0), path);
    assert_eq!(raise(path, 1), "/");
    assert_eq!(raise("", 0), "");
    // An occurrence behind a longer character is found where a character begins.
    let narrow = router(plain());
    assert_eq!(narrow.structural_anchor("/files/é/x;v=1"), Some("/files/é/"));
    let classes = StructuralClasses::new().with_fullwidth_structure();
    let wide = router(plain().with_structural_classes(classes));
    assert_eq!(wide.structural_anchor("/files/é/x\u{FF0F}y"), Some("/files/é/"));
}

#[test]
fn the_anchor_survives_any_rewriting() {
    let router = router(plain());
    let path = "/files/a/b;x//../c%2fd";
    let anchor = router.structural_anchor(path).expect("flagged");
    assert_eq!(anchor, "/files/");
    for rewritten in ["/files/a/c/d", "/files/a/b/c/d", "/files/a/b;x/c%2fd"] {
        assert!(rewritten.starts_with(anchor));
    }
}

#[test]
fn ids_are_positions_and_tell_registrations_apart() {
    let router = RuleRouter::builder("default", plain())
        .register(
            PathRegistration::path("/a")
                .with_path("/b")
                .method(Method::GET, "same")
                .method(Method::POST, "same"),
        )
        .route("/c", "same")
        .build()
        .ok()
        .expect("valid table");
    for path in ["/a", "/b"] {
        assert_eq!(router.resolve(path, &Method::GET).unwrap().id(), Some(0));
        assert_eq!(router.resolve(path, &Method::POST).unwrap().id(), Some(1));
        assert_eq!(
            router.resolve(path, &Method::PUT).unwrap_err(),
            ResolveError::MethodNotConfigured
        );
    }
    assert_eq!(router.resolve("/c", &Method::PUT).unwrap().id(), Some(2));
    assert!(router.resolve("/d", &Method::PUT).unwrap().is_default());
}

#[test]
fn a_builder_and_a_list_make_the_same_router() {
    let built = RuleRouter::builder(99, plain())
        .subtree("/files", 0)
        .route("/admin", 1)
        .register(Registration::route("/{one}", 2))
        .build()
        .ok()
        .expect("valid table");
    let listed = router(plain());
    for path in PATHS {
        assert_eq!(
            built.resolve(path, &Method::GET),
            listed.resolve(path, &Method::GET),
            "{path}"
        );
    }
    let one = RuleRouter::builder(99, plain()).route("/x", 0).route("/x", 1).build();
    let other = RuleRouter::from_registrations(
        99,
        plain(),
        vec![Registration::route("/x", 0), Registration::route("/x", 1)],
    );
    match (one, other) {
        (Err(a), Err(b)) => assert_eq!(a.to_string(), b.to_string()),
        _ => panic!("two registrations for one path"),
    }
}

#[test]
fn declaring_a_tail_exclusive_changes_no_answer() {
    let table = |exclusive: bool| {
        let files = if exclusive {
            Registration::exclusive_subtree("/files", 0)
        } else {
            Registration::subtree("/files", 0)
        };
        RuleRouter::from_registrations(
            99,
            plain(),
            vec![files, Registration::route("/admin", 1), Registration::route("/{one}", 2)],
        )
        .ok()
        .expect("valid table")
    };
    let exclusive = table(true);
    let ordinary = table(false);
    for path in PATHS {
        assert_eq!(
            exclusive.resolve(path, &Method::GET),
            ordinary.resolve(path, &Method::GET),
            "{path}"
        );
    }
}

#[test]
fn the_order_of_registrations_does_not_matter() {
    let there = RuleRouter::from_registrations(99, plain(), routes()).ok().expect("valid table");
    let mut reversed = routes();
    reversed.reverse();
    let back = RuleRouter::from_registrations(99, plain(), reversed).ok().expect("valid table");
    for path in PATHS {
        match (there.resolve(path, &Method::GET), back.resolve(path, &Method::GET)) {
            (Ok(a), Ok(b)) => assert_eq!(a.rule(), b.rule(), "{path}"),
            (Err(a), Err(b)) => assert_eq!(a, b, "{path}"),
            _ => panic!("{path}"),
        }
    }
}

#[test]
fn double_bookings_are_refused_in_either_order() {
    let pairs: Vec<[Registration<u32>; 2]> = vec![
        [Registration::route("/u/{id}", 0), Registration::route("/u/{name}", 0)],
        [
            Registration::route("/u", 0).for_methods(Method::GET),
            Registration::route("/u", 1).for_methods([Method::POST, Method::GET]),
        ],
        [
            Registration::exclusive_subtree("/{tenant}", 0),
            Registration::route("/files/private", 1),
        ],
    ];
    for [a, b] in pairs {
        let there = RuleRouter::from_registrations(9, plain(), vec![a.clone(), b.clone()]);
        let back = RuleRouter::from_registrations(9, plain(), vec![b, a]);
        assert!(there.is_err() && back.is_err());
    }
    let twice = Registration::route("/u", 0).for_methods([Method::GET, Method::GET]);
    assert!(RuleRouter::from_registrations(9, plain(), vec![twice]).is_err());
    let apart = vec![
        Registration::route("/u", 0),
        Registration::route("/u", 1).for_methods(Method::GET),
    ];
    assert!(RuleRouter::from_registrations(9, plain(), apart).is_ok());
}

#[test]
fn paths_of_one_terminal_agree_on_other_methods() {
    let built = RuleRouter::builder(9, plain())
        .register(PathRegistration::path("/u").method(Method::GET, 0))
        .register(
            PathRegistration::path("/u").method(Method::POST, 1).fallback_inherit(true),
        )
        .build();
    assert!(built.is_err());
}

#[test]
fn an_inheriting_path_is_passed_over() {
    let table = |inherit: bool| {
        RuleRouter::builder(9, plain())
            .register(PathRegistration::subtree("/u").all(0))
            .register(
                PathRegistration::path("/u/x").method(Method::GET, 1).fallback_inherit(inherit),
            )
            .build()
            .ok()
            .expect("valid table")
    };
    let without = RuleRouter::builder(9, plain())
        .register(PathRegistration::subtree("/u").all(0))
        .build()
        .ok()
        .expect("valid table");
    let inheriting = table(true);
    assert_eq!(inheriting.resolve("/u/x", &Method::GET).unwrap().id(), Some(1));
    assert_eq!(
        inheriting.resolve("/u/x", &Method::PUT).unwrap().id(),
        without.resolve("/u/x", &Method::PUT).unwrap().id()
    );
    assert_eq!(
        table(false).resolve("/u/x", &Method::PUT).unwrap_err(),
        ResolveError::MethodNotConfigured
    );
}

#[test]
fn gaps_are_reported_once_with_every_method_they_hide() {
    let purge = Method::from_bytes(b"PURGE").expect("method");
    let router = RuleRouter::builder(9, plain())
        .register(PathRegistration::subtree("/u").method(purge.clone(), 0).method(Method::GET, 1))
        .register(PathRegistration::path("/u/x").method(Method::POST, 2))
        .register(PathRegistration::path("/u/y").all(3))
        .build()
        .ok()
        .expect("valid table");
    let gaps = router.diagnostics();
    let found: Vec<(&str, &str, u32, Vec<Method>)> = gaps
        .iter()
        .map(|g| {
            (
                g.pattern.as_str(),
                g.example_path.as_str(),
                g.shadowed_registration,
                g.methods.clone(),
            )
        })
        .collect();
    assert_eq!(
        found,
        vec![
            ("/u/x", "/u/x", 1, vec![Method::GET]),
            ("/u/x", "/u/x", 0, vec![purge]),
        ]
    );
    for gap in &gaps {
        for method in &gap.methods {
            assert_eq!(
                router.inspect_raw(&gap.example_path, method),
                Ok(RawMatch::MethodDenied)
            );
        }
    }
}

#[test]
fn examples_are_paths_of_both_patterns() {
    let overlap = |a: &str, b: &str| {
        let a = lower_matchit(a).ok().expect("pattern");
        let b = lower_matchit(b).ok().expect("pattern");
        let there = overlap_path(&a, &b, "x");
        assert_eq!(there, overlap_path(&b, &a, "x"));
        there
    };
    assert_eq!(overlap("/", "/"), Some("/".to_string()));
    assert_eq!(overlap("/", "/{*rest}"), None);
    assert_eq!(overlap("/a/{id}", "/{x}/b"), Some("/a/b".to_string()));
    assert_eq!(overlap("/a/{id}/", "/{*rest}"), Some("/a/x/".to_string()));
    assert_eq!(overlap("/a/{*rest}", "/{x}/b/c"), Some("/a/b/c".to_string()));
    assert_eq!(overlap("/a", "/a/"), None);
    assert_eq!(overlap("/a/b", "/a/c"), None);
    assert_eq!(overlap("/a/{*rest}", "/a"), None);
}

#[test]
fn subtrees_cover_their_prefix_and_everything_below() {
    let covers = |prefix: &str, path: &str| {
        let router = RuleRouter::builder(9, plain().with_mode(GuardMode::Disabled))
            .subtree(prefix, 0)
            .build()
            .ok()
            .expect("valid table");
        !router.resolve(path, &Method::GET).ok().expect("allowed").is_default()
    };
    for path in ["/files", "/files/", "/files/a", "/files//a", "/files/a/b/"] {
        assert!(covers("/files", path), "{path}");
        assert_eq!(covers("/files/", path), path != "/files", "{path}");
        assert!(covers("/", path), "{path}");
        assert!(covers("/{any}", path), "{path}");
    }
    for path in ["/", "/file", "/filesx", "/filesx/a", "//files"] {
        assert!(!covers("/files", path), "{path}");
        assert!(covers("/", path), "{path}");
    }
    assert!(!covers("/", "*"));
}

#[test]
fn added_registrations_keep_the_denials_of_paths_that_keep_their_rule() {
    let base = vec![Registration::subtree("/files", 0), Registration::route("/admin", 1)];
    let smaller =
        RuleRouter::from_registrations(99, plain(), base.clone()).ok().expect("valid table");
    let mut larger = base;
    larger.push(Registration::route("/files/b", 2));
    larger.push(Registration::subtree("/{one}/two", 3));
    let larger = RuleRouter::from_registrations(99, plain(), larger).ok().expect("valid table");
    for path in PATHS {
        let same = smaller.inspect_raw(path, &Method::GET) == larger.inspect_raw(path, &Method::GET);
        assert!(!same || !denies(&smaller, path) || denies(&larger, path), "{path}");
    }
    assert!(!denies(&smaller, "/files/a%2fb") && denies(&larger, "/files/a%2fb"));
}

#[test]
fn an_added_registration_can_settle_a_path_that_it_takes_over() {
    let private = Registration::subtree("/{tenant}/private", 0);
    let smaller =
        RuleRouter::from_registrations(99, plain(), vec![private.clone()]).ok().expect("valid");
    let larger = RuleRouter::from_registrations(
        99,
        plain(),
        vec![private, Registration::subtree("/files", 1)],
    )
    .ok()
    .expect("valid");
    assert!(denies(&smaller, "/files/a%2fb"));
    assert_eq!(larger.resolve("/files/a%2fb", &Method::GET).unwrap().id(), Some(1));
}

#[test]
fn added_registrations_keep_the_denials_of_paths_that_keep_the_default() {
    let path = "/files/a;v=1";
    let base = || RuleRouter::builder(99, plain()).subtree("/{tenant}/private", 0);
    let smaller = base().build().ok().expect("valid table");
    assert!(smaller.inspect_raw(path, &Method::GET).unwrap().is_default());
    assert!(denies(&smaller, path));
    // No rule for the method, and its absence denied: another outcome than the default.
    let denying = base()
        .register(PathRegistration::path("/files/b").method(Method::POST, 1))
        .build()
        .ok()
        .expect("valid table");
    // A rule for the method, though not for all.
    let serving = base()
        .register(Registration::route("/files/b", 1).for_methods(Method::GET))
        .build()
        .ok()
        .expect("valid table");
    for larger in [&denying, &serving] {
        assert!(larger.inspect_raw(path, &Method::GET).unwrap().is_default());
        assert!(denies(larger, path));
    }
    // No rule for the method, and the default for its absence: the region is settled.
    let settling = base()
        .register(Registration::subtree("/files", 1).for_methods(Method::POST))
        .build()
        .ok()
        .expect("valid table");
    assert!(settling.inspect_raw(path, &Method::GET).unwrap().is_default());
    assert!(settling.resolve(path, &Method::GET).unwrap().is_default());
}

#[test]
fn rules_for_other_methods_do_not_matter() {
    let get = Registration::subtree("/files", 0).for_methods(Method::GET);
    let alone = RuleRouter::from_registrations(99, plain(), vec![get.clone()]).ok().expect("valid");
    let with_post = RuleRouter::from_registrations(
        99,
        plain(),
        vec![get, Registration::subtree("/files", 1).for_methods(Method::POST)],
    )
    .ok()
    .expect("valid");
    for path in PATHS {
        assert_eq!(
            alone.resolve(path, &Method::GET),
            with_post.resolve(path, &Method::GET),
            "{path}"
        );
    }
    assert_eq!(alone.resolve("/files/a%2fb", &Method::GET).unwrap().id(), Some(0));
    assert_eq!(with_post.resolve("/files/a%2fb", &Method::POST).unwrap().id(), Some(1));
}
