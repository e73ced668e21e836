use huskarl_route_guard::config::{
    CaseSensitivity, DecodeDepth, GuardConfig, GuardMode, StructuralChar, StructuralClasses,
};
use huskarl_route_guard::cover::RuleId;
use huskarl_route_guard::guard::PathConfusionGuard;
use huskarl_route_guard::pattern::{parse_pattern, Pattern};
use huskarl_route_guard::route_tree::Router;
use huskarl_route_guard::table::BuildError;
use huskarl_route_guard::MethodMatch;

fn build(entries: Vec<(Pattern, RuleId, bool, MethodMatch)>) -> Router {
    Router::build(entries).ok().expect("build")
}

fn guard(
    rows: &[(&str, RuleId, bool)],
    mode: GuardMode,
    classes: StructuralClasses,
    case: CaseSensitivity,
) -> PathConfusionGuard {
    guard_layers(rows, mode, classes, DecodeDepth::UpToOne, case)
}

fn guard_layers(
    rows: &[(&str, RuleId, bool)],
    mode: GuardMode,
    classes: StructuralClasses,
    layers: DecodeDepth,
    case: CaseSensitivity,
) -> PathConfusionGuard {
    let entries: Vec<_> = rows
        .iter()
        .map(|(p, id, op)| (parse_pattern(p).expect("parse"), *id, *op, MethodMatch::Any))
        .collect();
    PathConfusionGuard::new(
        build(entries),
        GuardConfig {
            mode,
            structural_classes: classes,
            decode_depth: layers,
            case_sensitivity: case,
            max_path_len: 8192,
        },
    )
}

/// L1: a path with no enabled structural byte is never denied.
#[test]
fn clean_paths_allowed() {
    let g = guard(
        &[("/admin/*", 0, false), ("/users/*", 1, false)],
        GuardMode::RejectAmbiguous,
        StructuralClasses::new(),
        CaseSensitivity::Sensitive,
    );
    assert!(!g.ambiguous("/admin/users", &http::Method::GET));
    assert!(!g.ambiguous("/users/42", &http::Method::GET));
    assert!(!g.ambiguous("/nope/clean", &http::Method::GET));
}

/// The scoped relaxation: a **fully-registered, uniformly-ruled** subtree tolerates
/// boundary-shift bytes beneath it (no other rule is reachable past the anchor),
/// while dot-segments still anchor wide and deny against this multi-rule table.
/// No opaque declaration needed — uniformity is derived from the table.
#[test]
fn uniform_subtree_allows_separator_denies_dotdot() {
    let g = guard(
        &[
            ("/files", 0, false),
            ("/files/", 0, false),
            ("/files/*", 0, false),
        ],
        GuardMode::RejectAmbiguous,
        StructuralClasses::new(),
        CaseSensitivity::Sensitive,
    );
    assert!(
        !g.ambiguous("/files/a%2fb", &http::Method::GET),
        "encoded slash in a uniform subtree"
    );
    assert!(
        !g.ambiguous("/files/a;b", &http::Method::GET),
        "matrix param in a uniform subtree"
    );
    // Dot-segments anchor `k` levels wider (one per `..`-capable segment): a climb
    // that provably resolves *within* the subtree flows, one that can reach the
    // root — where this table is not uniform — denies.
    assert!(
        !g.ambiguous("/files/a/../b", &http::Method::GET),
        "one `..` under /files/a/ climbs at most to /files/"
    );
    assert!(
        !g.ambiguous("/files/a/%2e%2e/b", &http::Method::GET),
        "encoded form of the same in-subtree climb"
    );
    assert!(
        g.ambiguous("/files/../b", &http::Method::GET),
        "one `..` under /files/ can climb out"
    );
    assert!(
        g.ambiguous("/files/%2e%2e/b", &http::Method::GET),
        "encoded climb out of the subtree"
    );
    assert!(
        g.ambiguous("/files/a/../../b", &http::Method::GET),
        "two `..` under /files/a/ can climb out"
    );
    // The relaxation is anchored: the same separator byte in the *first* segment
    // has the root as its anchor, where the table is not uniform.
    assert!(g.ambiguous("/fi%2fles/a", &http::Method::GET), "separator before the subtree");
}

/// A lone catch-all pattern is **not** a uniform subtree: without its `/files/`
/// (and `/files`) companions, the empty remainder — reachable via a `;`-strip —
/// falls to the default rule, so boundary-shift bytes keep denying. Register the
/// full subtree (`subtree`/`exclusive_subtree` do) to get the relaxation.
#[test]
fn lone_catchall_is_not_uniform() {
    let g = guard(
        &[("/files/*", 0, true)],
        GuardMode::RejectAmbiguous,
        StructuralClasses::new(),
        CaseSensitivity::Sensitive,
    );
    assert!(g.ambiguous("/files/a%2fb", &http::Method::GET), "gap to the default rule");
    assert!(!g.ambiguous("/files/clean", &http::Method::GET), "clean paths still flow");
}

/// An *encoded* matrix param that reveals a dot-segment (`..%3bx` — a `;`-stripping
/// servlet backend climbs out of the blob) is denied just like the literal `..;x`.
/// The blob tolerates a `;` as a boundary-shift byte, but never the traversal it hides.
#[test]
fn opaque_blob_denies_encoded_param_traversal() {
    let g = guard(
        &[
            ("/files", 0, false),
            ("/files/", 0, false),
            ("/files/*", 0, true),
        ],
        GuardMode::RejectAmbiguous,
        StructuralClasses::new(),
        CaseSensitivity::Sensitive,
    );
    // A plain matrix param on a real segment stays tolerated.
    assert!(
        !g.ambiguous("/files/a;b/c", &http::Method::GET),
        "matrix param on a real key segment"
    );
    // The literal Tomcat `..;` vector is denied even in the blob.
    assert!(g.ambiguous("/files/..;x/secret", &http::Method::GET), "literal `..;x`");
    // The encoded equivalents must be denied too — the bug this closes.
    assert!(g.ambiguous("/files/..%3bx/secret", &http::Method::GET), "encoded `..%3bx`");
    assert!(g.ambiguous("/files/..%3Bx/secret", &http::Method::GET), "encoded `..%3Bx`");
}

/// Incomplete coverage denies everywhere: a lone `/files/*/*` leaves gaps (the
/// one-segment and empty remainders fall to the default rule), so no anchor under
/// it is uniform — boundary-shift bytes deny in the tail and in the preceding
/// wildcard alike. (Under the old span model the tail was tolerated; the scoped
/// model is stricter exactly because a `;`-strip could shorten the tail into the
/// default rule.)
#[test]
fn incomplete_coverage_denies_boundary_shift_everywhere() {
    let g = guard(
        &[("/files/*/*", 0, true)],
        GuardMode::RejectAmbiguous,
        StructuralClasses::new(),
        CaseSensitivity::Sensitive,
    );
    assert!(g.ambiguous("/files/ab/c%2fd", &http::Method::GET), "%2f in the catch-all tail");
    assert!(
        g.ambiguous("/files/a%2fb/c", &http::Method::GET),
        "%2f in the preceding wildcard"
    );
    assert!(!g.ambiguous("/files/ab/cd", &http::Method::GET), "clean paths still flow");
}

/// Unrouted URL space is uniformly the default rule: a structural byte there
/// cannot relocate between rules, so it flows. (Deliberate behavior change from
/// the uniform-live model; the default rule governs those paths either way.)
#[test]
fn unrouted_space_tolerates_structural_bytes() {
    let g = guard(
        &[
            ("/admin", 0, false),
            ("/admin/", 0, false),
            ("/admin/*", 0, false),
        ],
        GuardMode::RejectAmbiguous,
        StructuralClasses::new(),
        CaseSensitivity::Sensitive,
    );
    assert!(
        !g.ambiguous("/public/a%2fb", &http::Method::GET),
        "everything under /public/ is the default rule"
    );
    // At the root the table is not uniform (admin vs default), so a first-segment
    // separator still denies…
    assert!(g.ambiguous("/pub%2flic/a", &http::Method::GET), "root anchor is mixed");
    // …as does a dot-segment (root-anchored), and NUL everywhere.
    assert!(g.ambiguous("/public/../x", &http::Method::GET), "dot-segment anchors at root");
    assert!(g.ambiguous("/public/a%00b", &http::Method::GET), "NUL denies unconditionally");
}

/// The `//`-merge root regression: `/` (root leaf) and `/{*rest}` carry different
/// rules, and slash-merging `//` → `/` relocates between them — the root anchor
/// must count the bare leaf. With one shared rule the same path flows.
#[test]
fn root_leaf_merge_relocation_denied() {
    let split = guard(
        &[("/", 1, false), ("/*", 0, false)],
        GuardMode::RejectAmbiguous,
        StructuralClasses::new(),
        CaseSensitivity::Sensitive,
    );
    assert!(
        split.ambiguous("//", &http::Method::GET),
        "merge relocates catch-all → root leaf"
    );
    let uniform = guard(
        &[("/", 0, false), ("/*", 0, false)],
        GuardMode::RejectAmbiguous,
        StructuralClasses::new(),
        CaseSensitivity::Sensitive,
    );
    assert!(!uniform.ambiguous("//", &http::Method::GET), "one-rule table cannot relocate");
}

/// A method-qualified route inside an otherwise-uniform subtree resolves other
/// methods to the default rule at that path. Its new identity for POST and its
/// default-rule gap for GET both keep the surrounding region mixed.
#[test]
fn method_only_route_keeps_subtree_denying() {
    let entries = vec![
        (
            parse_pattern("/files").expect("p"),
            0,
            false,
            MethodMatch::Any,
        ),
        (
            parse_pattern("/files/").expect("p"),
            0,
            false,
            MethodMatch::Any,
        ),
        (
            parse_pattern("/files/*").expect("p"),
            0,
            false,
            MethodMatch::Any,
        ),
        (
            parse_pattern("/files/upload").expect("p"),
            1,
            false,
            MethodMatch::from(http::Method::POST),
        ),
    ];
    let g = PathConfusionGuard::new(
        build(entries),
        GuardConfig::new(CaseSensitivity::Sensitive, DecodeDepth::UpToOne),
    );
    assert!(
        g.ambiguous("/files/a%2fb", &http::Method::GET),
        "method-split terminal keeps the subtree mixed"
    );
}

/// Strict mode ignores opaque declarations and treats any escape as non-canonical.
#[test]
fn noncanonical_ignores_opaque_and_denies_escapes() {
    let g = guard(
        &[("/files/*", 0, true)],
        GuardMode::RequireCanonical,
        StructuralClasses::new(),
        CaseSensitivity::Sensitive,
    );
    assert!(g.ambiguous("/files/a%2fb", &http::Method::GET), "opaque ignored when strict");
    assert!(g.ambiguous("/files/a%20b", &http::Method::GET), "any escape is non-canonical");
    assert!(!g.ambiguous("/files/ab", &http::Method::GET), "clean path still allowed");
}

/// Case is structural only under a case-folding backend.
#[test]
fn case_sensitivity_gates_uppercase() {
    let rows = &[("/admin", 0, false)];
    let sensitive = guard(
        rows,
        GuardMode::RejectAmbiguous,
        StructuralClasses::new(),
        CaseSensitivity::Sensitive,
    );
    assert!(
        !sensitive.ambiguous("/Admin", &http::Method::GET),
        "case ignored when sensitive"
    );

    let insensitive = guard(
        rows,
        GuardMode::RejectAmbiguous,
        StructuralClasses::new(),
        CaseSensitivity::Insensitive,
    );
    assert!(insensitive.ambiguous("/Admin", &http::Method::GET), "/Admin folds onto /admin");
    assert!(
        !insensitive.ambiguous("/admin", &http::Method::GET),
        "lowercase clean path allowed"
    );
}

/// The case-fold check is **precise** (fold-and-reroute, like content-decode), not a
/// presence deny: uppercase that folds *within its own rule* is allowed; uppercase
/// that folds onto a *different* rule is denied.
#[test]
fn case_fold_is_precise_not_presence() {
    let g = guard(
        &[
            ("/files", 0, false),
            ("/files/", 0, false),
            ("/files/*", 0, false),
            ("/users/*", 1, false),
            ("/users/admin", 2, false),
        ],
        GuardMode::RejectAmbiguous,
        StructuralClasses::new(),
        CaseSensitivity::Insensitive,
    );
    // Same-rule folds keep flowing: the capital sits in a capture and the folded
    // path lands on the same rule.
    assert!(
        !g.ambiguous("/files/ReadMe.TXT", &http::Method::GET),
        "mixed-case content within one rule"
    );
    assert!(
        !g.ambiguous("/users/Alice", &http::Method::GET),
        "folds to /users/alice — same catch-all rule"
    );
    // Cross-rule folds deny: the folded path reaches a rule the raw path missed.
    assert!(
        g.ambiguous("/users/ADMIN", &http::Method::GET),
        "folds onto the /users/admin literal — a different rule"
    );
    assert!(
        g.ambiguous("/Files/x", &http::Method::GET),
        "folds onto the /files subtree from the default rule"
    );
    // Strict mode stays blunt: any uppercase is non-canonical there.
    let strict = guard(
        &[("/files/*", 0, false)],
        GuardMode::RequireCanonical,
        StructuralClasses::new(),
        CaseSensitivity::Insensitive,
    );
    assert!(
        strict.ambiguous("/files/ReadMe.TXT", &http::Method::GET),
        "strict denies on presence"
    );
}

/// A mixed-case key inside an opaque blob folds within the blob's own rule and is
/// allowed; folding can never *escape* the blob (a differently-cased prefix that
/// folds onto the blob is still denied — it relocates from the default rule).
#[test]
fn opaque_blob_allows_mixed_case_keys() {
    let g = guard(
        &[
            ("/files", 0, false),
            ("/files/", 0, false),
            ("/files/*", 0, true),
        ],
        GuardMode::RejectAmbiguous,
        StructuralClasses::new(),
        CaseSensitivity::Insensitive,
    );
    assert!(!g.ambiguous("/files/Key%2FPart", &http::Method::GET), "mixed-case opaque key");
    assert!(
        g.ambiguous("/FILES/x", &http::Method::GET),
        "folding prefix relocates into the blob"
    );
    assert!(
        g.ambiguous("/files/A/../b", &http::Method::GET),
        "dot-segment still denied in the blob"
    );
}

/// Regression (found by the `guard_relocation` fuzz target): under a NUL-truncating
/// backend, a *raw* NUL must be denied — `/a\0junk` matched the default rule and was
/// allowed, while the backend truncates it to `/a` (a different rule). Raw and encoded
/// NUL are treated alike, mirroring raw vs encoded `;`/`\` — and the class is
/// **always-on** (NUL has no legitimate use in a path, so denying it by default
/// costs nothing while an undeclared C-string backend is a silent bypass).
#[test]
fn raw_nul_truncation_denied_by_default() {
    let g = guard(
        &[("/a", 0, false), ("/a/", 0, false), ("/a/*", 0, false)],
        GuardMode::RejectAmbiguous,
        StructuralClasses::new(),
        CaseSensitivity::Sensitive,
    );
    assert!(g.ambiguous("/a\u{0}b", &http::Method::GET), "raw NUL truncates to /a");
    assert!(g.ambiguous("/a%00b", &http::Method::GET), "encoded NUL truncates to /a");
    assert!(!g.ambiguous("/a", &http::Method::GET), "clean path allowed");
    // Denied even inside an opaque blob — truncation, like a dot-segment,
    // escapes any span.
    let blob = guard(
        &[("/files/*", 0, true)],
        GuardMode::RejectAmbiguous,
        StructuralClasses::new(),
        CaseSensitivity::Sensitive,
    );
    assert!(blob.ambiguous("/files/a%00b", &http::Method::GET), "NUL denied in a blob key");
}

/// Up-to-two decode is a required declaration, not a class toggle: under
/// [`DecodeDepth::UpToTwo`] the double-encoded traversal that slips a single-pass
/// front (the CVE-2025-0108 shape) is denied; under `UpToOne` a `%252e` reaches the
/// lone backend as the literal `%2e` and is not structure.
#[test]
fn decode_layers_gates_double_encoding() {
    let rows: &[(&str, RuleId, bool)] = &[
        ("/public", 0, false),
        ("/public/", 0, false),
        ("/public/*", 0, false),
        ("/admin", 1, false),
    ];
    let up_to_two = guard_layers(
        rows,
        GuardMode::RejectAmbiguous,
        StructuralClasses::new(),
        DecodeDepth::UpToTwo,
        CaseSensitivity::Sensitive,
    );
    assert!(
        up_to_two.ambiguous("/public/%252e%252e/admin", &http::Method::GET),
        "double-encoded traversal denied under UpToTwo"
    );
    // A double-encoded separator *before* any rule boundary (first segment →
    // root anchor, where /public and /admin diverge) is structure under UpToTwo…
    assert!(
        up_to_two.ambiguous("/pub%252flic/a", &http::Method::GET),
        "double-encoded separator at a rule boundary denied under UpToTwo"
    );
    // …but inside the uniform /public subtree it cannot relocate: scoped-allowed
    // even under UpToTwo (this is the blob-key case UpToTwo's docs promise).
    assert!(
        !up_to_two.ambiguous("/public/a%252fb", &http::Method::GET),
        "double-encoded separator inside a uniform subtree stays tolerated"
    );
    let single = guard_layers(
        rows,
        GuardMode::RejectAmbiguous,
        StructuralClasses::new(),
        DecodeDepth::UpToOne,
        CaseSensitivity::Sensitive,
    );
    assert!(
        !single.ambiguous("/pub%252flic/a", &http::Method::GET),
        "a lone backend sees literal %2f content — not structure"
    );
}

/// Content-decode catches a relocation the positional scan cannot see.
#[test]
fn content_decode_relocation_denied() {
    let g = guard(
        &[
            ("/admin", 0, false),
            ("/admin/", 0, false),
            ("/admin/*", 0, false),
        ],
        GuardMode::RejectAmbiguous,
        StructuralClasses::new(),
        CaseSensitivity::Sensitive,
    );
    assert!(g.ambiguous("/%61dmin", &http::Method::GET), "/%61dmin decodes to /admin");
    // Precise: a same-rule decode (opaque content) is allowed.
    assert!(!g.ambiguous("/admin/a%20b", &http::Method::GET), "encoded space under /admin");
    assert!(!g.ambiguous("/admin/x", &http::Method::GET), "clean path allowed");
}

/// Regression: a decode yielding **invalid UTF-8** must still be routed, not waved
/// through. Treating it as "undecodable, therefore not a modeled relocation" let a
/// single trailing `%FF` anywhere in the path suppress the whole content-decode
/// check: `/%61dmin/x%FF` was authorized under the *default* rule and forwarded raw,
/// and any backend that decodes to bytes served it inside `/admin`.
#[test]
fn content_decode_relocation_survives_invalid_utf8() {
    let g = guard(
        &[
            ("/admin", 0, false),
            ("/admin/", 0, false),
            ("/admin/*", 0, false),
        ],
        GuardMode::RejectAmbiguous,
        StructuralClasses::new(),
        CaseSensitivity::Sensitive,
    );
    for p in [
        "/%61dmin/x%FF",       // lone continuation byte
        "/%61dmin/x%C0",       // truncated two-byte lead
        "/%61dmin/x%E2%82",    // truncated three-byte sequence
        "/%61dmin/x%ED%A0%80", // encoded surrogate half
    ] {
        assert!(g.ambiguous(p, &http::Method::GET), "{p} decodes into the /admin subtree");
    }
    // Still precise: invalid UTF-8 that does *not* relocate stays allowed, so the fix
    // is byte-routing rather than a blanket deny on undecodable input.
    assert!(
        !g.ambiguous("/admin/caf%E9.txt", &http::Method::GET),
        "latin-1 content decodes to the same rule"
    );
}

/// The other half of the detection-table audit's CASE row: *encoded* uppercase is not a
/// positional concern (the byte scan flags only raw `A-Z`) — it is the content-decode
/// check's job under a case-folding backend. `/%41dmin` → `/Admin` → `/admin` relocates.
#[test]
fn content_decode_catches_encoded_uppercase() {
    let g = guard(
        &[
            ("/admin", 0, false),
            ("/admin/", 0, false),
            ("/admin/*", 0, false),
        ],
        GuardMode::RejectAmbiguous,
        StructuralClasses::new(),
        CaseSensitivity::Insensitive,
    );
    assert!(
        g.ambiguous("/%41dmin", &http::Method::GET),
        "/%41dmin → /Admin → /admin under case folding"
    );
    // A case-sensitive backend distinguishes /Admin from /admin, so it is not a relocation.
    let sensitive = guard(
        &[
            ("/admin", 0, false),
            ("/admin/", 0, false),
            ("/admin/*", 0, false),
        ],
        GuardMode::RejectAmbiguous,
        StructuralClasses::new(),
        CaseSensitivity::Sensitive,
    );
    assert!(
        !sensitive.ambiguous("/%41dmin", &http::Method::GET),
        "/%41dmin → /Admin, a distinct path when case-sensitive"
    );
}

/// `Disabled` disables the guard entirely.
#[test]
fn off_allows_everything() {
    let g = guard(
        &[("/files/*", 0, false)],
        GuardMode::Disabled,
        StructuralClasses::new(),
        CaseSensitivity::Sensitive,
    );
    assert!(!g.ambiguous("/files/a/../b", &http::Method::GET));
}

/// L7: CVE ground truth — known-bad inputs must deny, and declaring the public prefix
/// an opaque blob must not reopen any of them.
#[test]
fn cve_corpus_denied() {
    let classes = StructuralClasses::new();
    // CVE-2019-9901 (Envoy): `/public/../admin` climbs into a protected route.
    let envoy = |opaque| {
        guard(
            &[
                ("/public", 0, false),
                ("/public/", 0, false),
                ("/public/*", 0, opaque),
                ("/admin", 1, false),
            ],
            GuardMode::RejectAmbiguous,
            classes.clone(),
            CaseSensitivity::Sensitive,
        )
    };
    assert!(envoy(false).ambiguous("/public/../admin", &http::Method::GET));
    assert!(
        envoy(true).ambiguous("/public/../admin", &http::Method::GET),
        "opaque blob must not reopen the traversal"
    );

    // CVE-2021-31920 (Istio): `//admin` and `%2f`-escaped slashes bypass policy.
    let istio = guard(
        &[("/admin", 0, false)],
        GuardMode::RejectAmbiguous,
        classes.clone(),
        CaseSensitivity::Sensitive,
    );
    assert!(istio.ambiguous("//admin", &http::Method::GET));
    assert!(istio.ambiguous("/x%2fadmin", &http::Method::GET));

    // CVE-2021-41773 (Apache): encoded `%2e%2e` dot-segments escape an alias.
    let apache = guard(
        &[
            ("/cgi-bin", 0, false),
            ("/cgi-bin/", 0, false),
            ("/cgi-bin/*", 0, false),
            ("/secret", 1, false),
        ],
        GuardMode::RejectAmbiguous,
        classes.clone(),
        CaseSensitivity::Sensitive,
    );
    assert!(apache.ambiguous("/cgi-bin/%2e%2e/secret", &http::Method::GET));

    // CVE-2025-0108 (PAN-OS): nginx decoded `%252e%252e` once and let it past a
    // no-auth prefix; Apache decoded again and traversed. The topology is declared
    // (`DecodeDepth::UpToTwo`), and the double-encoded traversal is denied.
    let panos = guard_layers(
        &[
            ("/unauth", 0, false),
            ("/unauth/", 0, false),
            ("/unauth/*", 0, false),
            ("/php", 1, false),
        ],
        GuardMode::RejectAmbiguous,
        classes,
        DecodeDepth::UpToTwo,
        CaseSensitivity::Sensitive,
    );
    assert!(panos.ambiguous("/unauth/%252e%252e/php", &http::Method::GET));
    // The single-encoded form is caught by the default quartet regardless.
    assert!(panos.ambiguous("/unauth/%2e%2e/php", &http::Method::GET));

    // CVE-2026-73511 / GHSA-m745-gh6x-349x (Envoy): Envoy matched the raw `:path`
    // while a servlet backend (Tomcat) strips `;params` **per segment**, so
    // `/auth;x=y/` and `/;x=y/auth/` both reached a `/auth/` route that returned 403
    // for the literal path. Envoy's `ignore_path_parameters_in_path_matching` only
    // truncated at the *first* `;` in the whole path, which is why the second shape —
    // the param in a segment *before* the protected one — survived the option.
    //
    // Here the strip is a relocation *into* the protected rule from the default, and
    // PARAM is in the default quartet, so both shapes deny with no declaration.
    let servlet = |opaque| {
        guard(
            &[
                ("/auth", 0, false),
                ("/auth/", 0, false),
                ("/auth/*", 0, opaque),
            ],
            GuardMode::RejectAmbiguous,
            StructuralClasses::new(),
            CaseSensitivity::Sensitive,
        )
    };
    assert!(servlet(false).ambiguous("/auth;x=y/", &http::Method::GET));
    assert!(
        servlet(false).ambiguous("/;x=y/auth/", &http::Method::GET),
        "the param sits in a segment before the protected one — the shape Envoy's \
         first-`;` truncation missed"
    );
    // Every form the byte scan treats as PARAM introduces the strip, so an *encoded*
    // matrix param is denied exactly as the literal one is.
    assert!(servlet(false).ambiguous("/auth%3bx=y/", &http::Method::GET));
    assert!(servlet(false).ambiguous("/%3bx=y/auth/", &http::Method::GET));
    // An opaque blob beneath /auth must not reopen the relocation into it: the
    // boundary the param crosses is the subtree anchor, not a byte inside the blob.
    assert!(
        servlet(true).ambiguous("/auth;x=y/", &http::Method::GET),
        "opaque blob must not reopen the param strip at the anchor"
    );
    // The double-encoded form is a topology fact, not a default: under `UpToOne` a
    // `%253b` never becomes a `;`, so it routes to the default rule and is allowed;
    // declaring the second decoder denies it.
    let servlet_two = guard_layers(
        &[
            ("/auth", 0, false),
            ("/auth/", 0, false),
            ("/auth/*", 0, false),
        ],
        GuardMode::RejectAmbiguous,
        StructuralClasses::new(),
        DecodeDepth::UpToTwo,
        CaseSensitivity::Sensitive,
    );
    assert!(!servlet(false).ambiguous("/auth%253bx=y/", &http::Method::GET));
    assert!(servlet_two.ambiguous("/auth%253bx=y/", &http::Method::GET));
}

#[derive(Clone, Debug)]
struct Cfg {
    mode: GuardMode,
    insensitive: bool,
    backslash: bool,
    up_to_two: bool,
    unicode: bool,
    overlong: bool,
}

impl Cfg {
    fn structural() -> Self {
        Self {
            mode: GuardMode::RejectAmbiguous,
            insensitive: false,
            backslash: false,
            up_to_two: false,
            unicode: false,
            overlong: false,
        }
    }

    fn from_bits(bits: u64) -> Self {
        Self {
            mode: if bits & 1 == 0 {
                GuardMode::RejectAmbiguous
            } else {
                GuardMode::RequireCanonical
            },
            insensitive: bits & 2 != 0,
            backslash: bits & 4 != 0,
            up_to_two: bits & 8 != 0,
            unicode: bits & 16 != 0,
            overlong: bits & 32 != 0,
        }
    }

    fn build(&self, rows: &[(&str, RuleId, bool)]) -> PathConfusionGuard {
        let mut classes = StructuralClasses::new();
        if self.backslash {
            classes = classes.with_backslash();
        }
        if self.unicode {
            classes = classes.with_fullwidth_structure();
        }
        if self.overlong {
            classes = classes.with_overlong(&[StructuralChar::Slash, StructuralChar::Dot]);
        }
        guard_layers(
            rows,
            self.mode,
            classes,
            if self.up_to_two {
                DecodeDepth::UpToTwo
            } else {
                DecodeDepth::UpToOne
            },
            if self.insensitive {
                CaseSensitivity::Insensitive
            } else {
                CaseSensitivity::Sensitive
            },
        )
    }
}

const SEG_VOCAB: &[&str] = &[
    "a", "b", "x", "admin", "users", "files", "edit", "super", "secret", "a%2fb", "..", "%2e%2e",
    "a;b", "..;x", "a%5cb", "a%00b", "a%252fb", "a%c0%afb", "Abc",
];

const GENERAL: &[(&str, RuleId, bool)] = &[
    ("/admin", 0, false),
    ("/admin/", 0, false),
    ("/admin/*", 0, false),
    ("/admin/super", 1, false),
    ("/users/*", 2, false),
    ("/a/*/edit", 3, false),
];

fn files_rows(opaque: bool) -> Vec<(&'static str, RuleId, bool)> {
    vec![
        ("/files", 0, false),
        ("/files/", 0, false),
        ("/files/*", 0, opaque),
    ]
}

/// A stream of pseudo-random numbers.
struct Stream(u64);

impl Stream {
    fn next(&mut self) -> u64 {
        self.0 = self.0.wrapping_add(0x9E37_79B9_7F4A_7C15);
        let mut z = self.0;
        z = (z ^ (z >> 30)).wrapping_mul(0xBF58_476D_1CE4_E5B9);
        z = (z ^ (z >> 27)).wrapping_mul(0x94D0_49BB_1331_11EB);
        z ^ (z >> 31)
    }

    fn below(&mut self, n: usize) -> usize {
        (self.next() % n as u64) as usize
    }

    fn request_path(&mut self) -> String {
        let mut path = String::new();
        for _ in 0..1 + self.below(3) {
            path.push('/');
            path.push_str(SEG_VOCAB[self.below(SEG_VOCAB.len())]);
        }
        path
    }
}

#[test]
fn clean_paths_are_never_denied() {
    let mut stream = Stream(5);
    for bits in 0..64 {
        let g = Cfg::from_bits(bits).build(GENERAL);
        for _ in 0..200 {
            let mut path = String::new();
            for _ in 0..1 + stream.below(3) {
                path.push('/');
                for _ in 0..1 + stream.below(4) {
                    path.push(char::from(b'a' + stream.below(26) as u8));
                }
            }
            assert!(!g.ambiguous(&path, &http::Method::GET), "{path}");
        }
    }
}

#[test]
fn stricter_settings_only_add_denials() {
    let mut stream = Stream(6);
    let paths: Vec<String> = (0..400).map(|_| stream.request_path()).collect();
    for bits in 0..64u64 {
        let base = Cfg::from_bits(bits).build(GENERAL);
        for step in [1u64, 2, 4, 8, 16, 32] {
            let stricter = Cfg::from_bits(bits | step).build(GENERAL);
            for path in &paths {
                assert!(
                    !base.ambiguous(path, &http::Method::GET)
                        || stricter.ambiguous(path, &http::Method::GET),
                    "{path} with {bits} and {step}"
                );
            }
        }
    }
}

#[test]
fn folding_case_keeps_the_denials_of_decoding() {
    // Decoding moves `/%61/%41` from the wildcard pair to `/a/{y}`. That the decoded path
    // would move back to the wildcard pair when folded excuses nothing.
    let rows: &[(&str, RuleId, bool)] = &[("/*/*/", 0, false), ("/a/a/", 0, false), ("/a/*/", 1, false)];
    let cfg = Cfg::structural();
    let folding = Cfg {
        insensitive: true,
        ..cfg.clone()
    };
    let path = "/%61/%41/";
    assert!(cfg.build(rows).ambiguous(path, &http::Method::GET));
    assert!(folding.build(rows).ambiguous(path, &http::Method::GET));
}

#[test]
fn exclusivity_does_not_change_request_checks() {
    let mut stream = Stream(7);
    let normal = Cfg::structural().build(&files_rows(false));
    let blob = Cfg::structural().build(&files_rows(true));
    for _ in 0..2_000 {
        let path = stream.request_path();
        assert_eq!(
            normal.ambiguous(&path, &http::Method::GET),
            blob.ambiguous(&path, &http::Method::GET),
            "{path}"
        );
    }
}

#[test]
fn climbs_out_of_the_subtree_are_denied() {
    for dots in [
        "..",
        "%2e%2e",
        "%2E%2e",
        ".%2e",
        "..;x",
        "..%3bx",
        "..%3Bx",
        "a%2f..%2fb",
    ] {
        for tail in ["", "/x", "/admin"] {
            let path = format!("/files/{dots}{tail}");
            for opaque in [false, true] {
                let g = Cfg::structural().build(&files_rows(opaque));
                assert!(g.ambiguous(&path, &http::Method::GET), "{path}");
            }
        }
    }
}

#[test]
fn an_exclusive_tail_with_a_sibling_is_not_built() {
    for leaf in ["a", "leaf", "z"] {
        let entries = vec![
            (parse_pattern("/p/*").expect("blob"), 0, true, MethodMatch::Any),
            (
                parse_pattern(&format!("/p/{leaf}")).expect("sibling"),
                1,
                false,
                MethodMatch::Any,
            ),
        ];
        assert!(matches!(
            Router::build(entries),
            Err(BuildError::OpaqueTailHasSibling { .. })
        ));
    }
}
