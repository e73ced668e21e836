use huskarl_route_guard::cover::{Cover, RuleId, DEFAULT_RULE};
use huskarl_route_guard::pattern::{
    lower_matchit, parse_pattern, LowerError, Pattern, PatternError, Segment,
};
use huskarl_route_guard::route_tree::Router;
use huskarl_route_guard::table::BuildError;
use huskarl_route_guard::MethodMatch;

fn router(rows: &[(&str, RuleId)]) -> Router {
    let entries: Vec<_> = rows
        .iter()
        .map(|(p, id)| {
            (
                parse_pattern(p).expect("parse"),
                *id,
                false,
                MethodMatch::Any,
            )
        })
        .collect();
    build(entries)
}

fn build(entries: Vec<(Pattern, RuleId, bool, MethodMatch)>) -> Router {
    Router::build(entries).ok().expect("build")
}

fn route_id(router: &Router, path: &str) -> Option<RuleId> {
    router.resolve(path, &http::Method::GET)
}

fn route_id_bytes(router: &Router, path: &[u8]) -> Option<RuleId> {
    router.resolve_bytes(path, &http::Method::GET)
}

#[test]
fn parse_basic_shapes() {
    assert_eq!(parse_pattern("/").expect("root").segments, vec![]);
    assert_eq!(
        parse_pattern("/admin").expect("lit").segments,
        vec![Segment::Literal("admin".into())]
    );
    assert_eq!(
        parse_pattern("/a/*/b").expect("interior wildcard").segments,
        vec![
            Segment::Literal("a".into()),
            Segment::Wildcard,
            Segment::Literal("b".into())
        ]
    );
    // The final `*` is a catch-all, not a single-segment wildcard.
    assert_eq!(
        parse_pattern("/files/*").expect("catchall").segments,
        vec![Segment::Literal("files".into()), Segment::CatchAll]
    );
    // Bare root catch-all.
    assert_eq!(
        parse_pattern("/*").expect("root catchall").segments,
        vec![Segment::CatchAll]
    );
}

#[test]
fn parse_star_escaping() {
    // `**` → literal `*`, `***` → literal `**`.
    assert_eq!(
        parse_pattern("/**").expect("escaped").segments,
        vec![Segment::Literal("*".into())]
    );
    assert_eq!(
        parse_pattern("/***").expect("escaped").segments,
        vec![Segment::Literal("**".into())]
    );
    // A `*` inside a mixed segment is a literal byte, not a wildcard.
    assert_eq!(
        parse_pattern("/v*").expect("mixed").segments,
        vec![Segment::Literal("v*".into())]
    );
}

#[test]
fn parse_trailing_slash_is_significant() {
    let a = parse_pattern("/admin").expect("a");
    let b = parse_pattern("/admin/").expect("b");
    assert!(!a.trailing_slash);
    assert!(b.trailing_slash);
    assert_eq!(a.segments, b.segments);
}

#[test]
fn parse_rejects_bad_patterns() {
    assert_eq!(
        parse_pattern("no-slash"),
        Err(PatternError::MissingLeadingSlash)
    );
    assert_eq!(
        parse_pattern("/a//b"),
        Err(PatternError::EmptyInteriorSegment)
    );
}

// ── matchit-syntax lowering (the public-API bridge) ───────────────────────

#[test]
fn lower_matchit_maps_params() {
    assert_eq!(lower_matchit("/").expect("root").segments, vec![]);
    // Trailing single-segment param stays a single-segment Wildcard (not a catch-all).
    assert_eq!(
        lower_matchit("/users/{id}").expect("param").segments,
        vec![Segment::Literal("users".into()), Segment::Wildcard]
    );
    assert_eq!(
        lower_matchit("/files/{*rest}").expect("catchall").segments,
        vec![Segment::Literal("files".into()), Segment::CatchAll]
    );
    assert_eq!(
        lower_matchit("/a/{x}/b").expect("interior").segments,
        vec![
            Segment::Literal("a".into()),
            Segment::Wildcard,
            Segment::Literal("b".into())
        ]
    );
    // Escaped braces are a literal segment.
    assert_eq!(
        lower_matchit("/{{cfg}}").expect("escaped").segments,
        vec![Segment::Literal("{cfg}".into())]
    );
}

#[test]
fn lower_matchit_rejects_unrepresentable() {
    // Prefix/suffix params — the dropped feature.
    assert_eq!(lower_matchit("/v{ver}"), Err(LowerError::PrefixSuffixParam));
    assert_eq!(
        lower_matchit("/img-{id}.png"),
        Err(LowerError::PrefixSuffixParam)
    );
    // Catch-all must be final.
    assert_eq!(
        lower_matchit("/files/{*rest}/x"),
        Err(LowerError::CatchAllNotLast)
    );
    assert_eq!(
        lower_matchit("/files/{*rest}/"),
        Err(LowerError::CatchAllNotLast)
    );
    assert_eq!(lower_matchit("/{}"), Err(LowerError::InvalidParam));
    assert_eq!(lower_matchit("/{*}"), Err(LowerError::InvalidParam));
    assert_eq!(lower_matchit("/{foo*bar}"), Err(LowerError::InvalidParam));
    assert_eq!(
        lower_matchit("no-slash"),
        Err(LowerError::MissingLeadingSlash)
    );
    assert_eq!(
        lower_matchit("/a//b"),
        Err(LowerError::EmptyInteriorSegment)
    );
}

// ── build gates ──────────────────────────────────────────────────────────

#[test]
fn build_rejects_terminal_conflict() {
    let entries = vec![
        (parse_pattern("/a").expect("p"), 0, false, MethodMatch::Any),
        (parse_pattern("/a").expect("p"), 1, false, MethodMatch::Any),
    ];
    // The conflict is attributed to the second entry.
    assert!(matches!(
        Router::build(entries),
        Err(BuildError::Conflict { index: 1 })
    ));
}

#[test]
fn build_rejects_opaque_with_sibling() {
    let entries = vec![
        (
            parse_pattern("/files/*").expect("blob"),
            0,
            true,
            MethodMatch::Any,
        ),
        (
            parse_pattern("/files/secret").expect("sib"),
            1,
            false,
            MethodMatch::Any,
        ),
    ];
    // The error names where the blob is rooted.
    assert!(matches!(
        Router::build(entries),
        Err(BuildError::OpaqueTailHasSibling { at }) if at == "/files"
    ));
}

#[test]
fn build_accepts_lone_opaque_blob() {
    // The opaque flag is a build-time guarantee (sibling-free, hence uniform);
    // it no longer has a runtime span — matching is identical either way.
    let entries = vec![(
        parse_pattern("/files/*").expect("blob"),
        0,
        true,
        MethodMatch::Any,
    )];
    let r = build(entries);
    assert_eq!(route_id(&r, "/files/a/b"), Some(0));
    let plain = router(&[("/files/*", 0)]);
    assert_eq!(route_id(&plain, "/files/a/b"), Some(0));
}

// ── coverage annotation + anchor walk (the scoped verdict's substrate) ────

#[test]
fn anchor_cover_full_subtree_is_uniform() {
    let r = router(&[("/files", 0), ("/files/", 0), ("/files/*", 0)]);
    assert_eq!(
        r.anchor_cover("/files/", &http::Method::GET),
        Cover::Uniform(0)
    );
    // Anchors deeper inside the catch-all stay uniform — the walk bottoms out at
    // the catch-all node, which covers everything beneath it.
    assert_eq!(
        r.anchor_cover("/files/a/b/", &http::Method::GET),
        Cover::Uniform(0)
    );
    // The root anchor sees the default fall-through for paths outside /files.
    assert_eq!(r.anchor_cover("/", &http::Method::GET), Cover::Mixed);
}

#[test]
fn anchor_cover_lone_catchall_leaks_default() {
    // Without `/files/` (leaf_slash), the empty remainder — reachable via e.g. a
    // `;`-strip emptying the tail — falls to the default rule: not uniform.
    let r = router(&[("/files/*", 0)]);
    assert_eq!(r.anchor_cover("/files/", &http::Method::GET), Cover::Mixed);
}

#[test]
fn anchor_cover_unrouted_space_is_uniformly_default() {
    // Nothing under /public and no ancestor catch-all: every path there resolves
    // to the default rule, which is itself a uniform outcome.
    let r = router(&[("/admin", 0)]);
    assert_eq!(
        r.anchor_cover("/public/", &http::Method::GET),
        Cover::Uniform(DEFAULT_RULE)
    );
}

#[test]
fn anchor_cover_sees_ancestor_wildcard_branch() {
    // A suffix dead-ending under /files/*/deep backtracks into /*/c: rule 1 is
    // reachable under the /files/ anchor even though its pattern never spells
    // "files" — the walk must follow the wildcard branch alongside the literal.
    let r = router(&[("/files/*/deep", 0), ("/*/c", 1)]);
    assert_eq!(r.anchor_cover("/files/", &http::Method::GET), Cover::Mixed);
}

#[test]
fn anchor_cover_complete_tier_shadows_ancestor_catchall() {
    // A fully-registered /files subtree under a root-wide catch-all: nothing under
    // /files/ can ever backtrack to the root catch-all (the subtree is complete),
    // so the anchor stays uniform despite the differently-ruled ancestor.
    let r = router(&[
        ("/files", 0),
        ("/files/", 0),
        ("/files/*", 0),
        ("/", 1),
        ("/*", 1),
    ]);
    assert_eq!(
        r.anchor_cover("/files/", &http::Method::GET),
        Cover::Uniform(0)
    );
    // But an *incomplete* subtree leaks into the ancestor catch-all: mixed.
    let leaky = router(&[("/files/*", 0), ("/", 1), ("/*", 1)]);
    assert_eq!(
        leaky.anchor_cover("/files/", &http::Method::GET),
        Cover::Mixed
    );
}

#[test]
fn anchor_cover_root_counts_the_bare_leaf() {
    // The `//`-merge regression: at the root anchor the empty remainder is the
    // bare `/` (root.leaf), which slash-merging really can produce. A table whose
    // `/` and `/{*rest}` carry different rules must read Mixed at "/".
    let r = router(&[("/", 1), ("/*", 0)]);
    assert_eq!(r.anchor_cover("/", &http::Method::GET), Cover::Mixed);
    // Same table with one shared rule id is uniform — and complete (leaf +
    // catch-all), so the default never joins.
    let uni = router(&[("/", 0), ("/*", 0)]);
    assert_eq!(uni.anchor_cover("/", &http::Method::GET), Cover::Uniform(0));
}

#[test]
fn anchor_cover_method_gap_injects_default() {
    // GET stays uniform, but POST selects the default at the GET-only leaf
    // instead of falling back to the surrounding all-method catch-all.
    let entries = vec![
        (
            parse_pattern("/x/y").expect("pat"),
            0,
            false,
            MethodMatch::from(http::Method::GET),
        ),
        (
            parse_pattern("/x/").expect("pat"),
            0,
            false,
            MethodMatch::Any,
        ),
        (
            parse_pattern("/x/*").expect("pat"),
            0,
            false,
            MethodMatch::Any,
        ),
    ];
    let r = build(entries);
    assert_eq!(r.anchor_cover("/x/", &http::Method::GET), Cover::Uniform(0));
    assert_eq!(r.anchor_cover("/x/", &http::Method::POST), Cover::Mixed);
    // The same shape with a method-wildcard terminal is uniform.
    let all = router(&[("/x/y", 0), ("/x/", 0), ("/x/*", 0)]);
    assert_eq!(
        all.anchor_cover("/x/", &http::Method::GET),
        Cover::Uniform(0)
    );
}

#[test]
fn multi_method_slot_resolves_each_and_stays_method_gapped() {
    // A OneOf registration claims each listed method under its single rule id;
    // unlisted methods resolve uniformly to the default, while listed methods
    // have default-rule gaps outside the registered path.
    let entries = vec![(
        parse_pattern("/x").expect("pat"),
        0,
        false,
        MethodMatch::from([http::Method::GET, http::Method::HEAD]),
    )];
    let r = build(entries);
    assert_eq!(r.resolve("/x", &http::Method::GET), Some(0));
    assert_eq!(r.resolve("/x", &http::Method::HEAD), Some(0));
    assert_eq!(r.resolve("/x", &http::Method::POST), None);
    assert_eq!(r.anchor_cover("/", &http::Method::GET), Cover::Mixed);
    assert_eq!(r.anchor_cover("/", &http::Method::HEAD), Cover::Mixed);
    assert_eq!(
        r.anchor_cover("/", &http::Method::POST),
        Cover::Uniform(DEFAULT_RULE)
    );
}

// ── matching: precedence + backtracking (the load-bearing behavior) ───────

/// Byte paths route. An invalid-UTF-8 segment can never equal a registered literal
/// (patterns arrive as `&str`), but it must still fall through to the wildcard or
/// catch-all exactly as a byte-routing backend does — declining to answer is what
/// made the content-decode check fail open.
#[test]
fn byte_paths_route_past_invalid_utf8() {
    let r = router(&[("/files/secret", 0), ("/files/*", 1)]);
    assert_eq!(route_id_bytes(&r, b"/files/secret"), Some(0), "literal wins");
    assert_eq!(
        route_id_bytes(&r, b"/files/\xFF"),
        Some(1),
        "invalid UTF-8 segment falls through to the catch-all"
    );
    assert_eq!(
        route_id_bytes(&r, b"/\xFFiles/secret"),
        None,
        "invalid UTF-8 matches no literal"
    );
    // Equivalence with the `&str` entry point on everything that is valid UTF-8.
    for p in ["/files/secret", "/files/other", "/files/x/y", "/nope"] {
        assert_eq!(route_id(&r, p), route_id_bytes(&r, p.as_bytes()), "{p}");
    }
}

#[test]
fn literal_beats_wildcard_and_catchall() {
    let r = router(&[("/files/secret", 0), ("/files/*", 1)]);
    assert_eq!(route_id(&r, "/files/secret"), Some(0)); // literal wins
    assert_eq!(route_id(&r, "/files/other"), Some(1)); // catch-all fallback
    assert_eq!(route_id(&r, "/files/x/y"), Some(1)); // catch-all spans segments
}

#[test]
fn backtracks_from_literal_into_wildcard() {
    // The case that a non-backtracking trie gets wrong: `/a/b` shadows the literal
    // `a` branch, but `/a/c` must still reach `/*/c`.
    let r = router(&[("/a/b", 0), ("/*/c", 1)]);
    assert_eq!(route_id(&r, "/a/b"), Some(0));
    assert_eq!(route_id(&r, "/a/c"), Some(1));
}

#[test]
fn trailing_slash_and_empty_segments() {
    let r = router(&[("/users", 0), ("/users/", 1), ("/users/*", 2)]);
    assert_eq!(route_id(&r, "/users"), Some(0)); // leaf
    assert_eq!(route_id(&r, "/users/"), Some(1)); // leaf_slash — distinct route
    assert_eq!(route_id(&r, "/users/x"), Some(2)); // catch-all
}

#[test]
fn single_segment_wildcard_requires_one_segment() {
    let r = router(&[("/a/*/b", 0)]);
    assert_eq!(route_id(&r, "/a/x/b"), Some(0));
    assert_eq!(route_id(&r, "/a/b"), None); // wildcard needs a segment
    assert_eq!(route_id(&r, "/a/x/y/b"), None); // and exactly one
}

const MATCHIT_CATALOG: &[&str] = &[
    "/",
    "/health",
    "/admin",
    "/admin/",
    "/admin/{*rest}",
    "/admin/super",
    "/users/{id}",
    "/users/{id}/posts",
    "/a/{x}/edit",
    "/files/{*rest}",
];

fn differ(data: &[u8]) {
    let mask = data.first().copied().unwrap_or(0xFF);
    let probe = String::from_utf8_lossy(data.get(1..).unwrap_or(&[]));

    let mut ours_entries = Vec::new();
    let mut oracle = matchit::Router::new();
    for (i, pat) in MATCHIT_CATALOG.iter().enumerate() {
        // The first eight entries are under the control of the mask.
        if i < 8 && mask & (1 << i) == 0 {
            continue;
        }
        if oracle.insert(*pat, i as RuleId).is_err() {
            continue; // keep ours in lockstep with the oracle
        }
        let lowered = lower_matchit(pat).expect("catalog lowers");
        ours_entries.push((lowered, i as RuleId, false, MethodMatch::Any));
    }
    let ours = build(ours_entries);

    let our_id = route_id(&ours, &probe);
    let their_id = oracle.at(&probe).ok().map(|m| *m.value);
    assert_eq!(
        our_id, their_id,
        "matcher diverged from matchit on {probe:?}"
    );
}

/// A stream of pseudo-random numbers.
struct Stream(u64);

impl Stream {
    fn next(&mut self) -> u64 {
        self.0 = self.0.wrapping_add(0x9E37_79B9_7F4A_7C15);
        let mut z = self.0;
        z = (z ^ (z >> 30)).wrapping_mul(0xBF58_476D_1CE4_E5B9);
        z = (z ^ (z >> 27)).wrapping_mul(0x94D0_49BB_1331_11EB);
        z ^ (z >> 31)
    }

    fn below(&mut self, n: usize) -> usize {
        (self.next() % n as u64) as usize
    }
}

#[test]
fn matcher_differential() {
    for seed in [
        "/health",
        "/admin/",
        "/admin/x/y",
        "/users/42/posts",
        "/a/x/edit",
        "//admin",
        "/a/b",
        "/nope",
    ] {
        let mut data = vec![0xFF];
        data.extend_from_slice(seed.as_bytes());
        differ(&data);
    }
    const PIECES: &[&str] = &[
        "/", "/", "/", "health", "admin", "super", "users", "posts", "a", "edit", "files", "x", "é",
    ];
    let mut stream = Stream(3);
    for _ in 0..20_000 {
        let mut data = vec![stream.next() as u8];
        for _ in 0..stream.below(8) {
            data.extend_from_slice(PIECES[stream.below(PIECES.len())].as_bytes());
        }
        differ(&data);
    }
}

#[test]
fn expanded_identities_agree_with_the_cached_cover() {
    let patterns = [
        "/",
        "/{*rest}",
        "/files",
        "/files/",
        "/files/{*rest}",
        "/files/special",
        "/{tenant}/deep",
        "/other/",
        "/other/{*rest}",
    ];
    let mut stream = Stream(4);
    for _ in 0..3_000 {
        let mut entries = Vec::new();
        for (index, pattern) in patterns.iter().enumerate() {
            let methods = match stream.below(4) {
                0 => continue,
                1 => MethodMatch::Any,
                2 => MethodMatch::from(http::Method::GET),
                _ => MethodMatch::from(http::Method::POST),
            };
            entries.push((
                lower_matchit(pattern).expect("lowers"),
                (index % 3) as RuleId,
                false,
                methods,
            ));
        }
        let router = build(entries);
        for anchor in ["/", "/files/", "/files/special/", "/other/", "/none/"] {
            for method in [
                http::Method::GET,
                http::Method::POST,
                http::Method::from_bytes(b"PURGE").expect("method"),
            ] {
                let list = router.anchor_identities(anchor, &method);
                let mut expanded = Cover::Empty;
                for id in &list.registrations {
                    expanded = expanded.with(*id);
                }
                if list.includes_default {
                    expanded = expanded.with(DEFAULT_RULE);
                }
                if list.includes_method_denial {
                    expanded = expanded.join(Cover::Denied);
                }
                assert_eq!(expanded, router.anchor_cover(anchor, &method));
            }
        }
    }
}
