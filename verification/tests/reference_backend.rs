//! A concrete backend that rewrites paths, held against the guard: whatever the guard
//! allows, no backend of the modeled family routes to another rule.

use huskarl_route_guard::config::{
    CaseSensitivity, DecodeDepth, GuardConfig, GuardMode, StructuralChar, StructuralClasses,
};
use huskarl_route_guard::{
    PathRegistration, RawMatch, ResolveError, RuleRouter, RuleRouterError,
};

fn raw_identity<R>(router: &RuleRouter<R>, path: &str, method: &http::Method) -> RawMatch {
    router.guard.router.identity(path.as_bytes(), method)
}

fn denial<R>(router: &RuleRouter<R>, path: &str, method: &http::Method) -> Option<ResolveError> {
    router.resolve(path, method).err()
}

fn check_anchor_preserved(path: &str, anchor: &str, normalized: &str) -> Result<(), String> {
    if normalized.starts_with(anchor) {
        Ok(())
    } else {
        Err(format!(
            "ANCHOR VIOLATED: {path:?} has anchor {anchor:?}, but normalizes to {normalized:?}"
        ))
    }
}

/// A stream of pseudo-random numbers.
struct Stream(u64);

impl Stream {
    fn next(&mut self) -> u64 {
        self.0 = self.0.wrapping_add(0x9E37_79B9_7F4A_7C15);
        let mut z = self.0;
        z = (z ^ (z >> 30)).wrapping_mul(0xBF58_476D_1CE4_E5B9);
        z = (z ^ (z >> 27)).wrapping_mul(0x94D0_49BB_1331_11EB);
        z ^ (z >> 31)
    }

    fn below(&mut self, n: usize) -> usize {
        (self.next() % n as u64) as usize
    }

    fn path(&mut self) -> String {
        let mut path = String::new();
        for _ in 0..1 + self.below(4) {
            path.push('/');
            path.push_str(VOCAB[self.below(VOCAB.len())]);
        }
        path
    }
}

// ── Route-table catalog ────────────────────────────────────────────────────
const CATALOG: &[(char, &str)] = &[
    ('s', "/admin"),
    ('s', "/public"),
    ('s', "/api"),
    ('e', "/health"),
    ('e', "/admin/super"),
    ('e', "/users/{id}"),
    ('s', "/a"),
    ('e', "/a/b"),
    // Guaranteed-uniform subtrees (nothing else registers beneath them): the scoped
    // verdict's *allow* paths, where the soundness property does its hardest work —
    // structural bytes under these flow, and every modeled normalization must agree.
    ('s', "/blob"),
    ('s', "/deep/nested"),
    // Overlapping wildcard and literal subtrees exercise precedence changes:
    // a new literal subtree can shadow a wildcard branch and restore uniformity.
    ('s', "/{tenant}/private"),
    ('s', "/files"),
    ('s', "/{tenant}/shared"),
    ('s', "/files/{folder}"),
];
const VOCAB: &[&str] = &[
    "files",
    "private",
    "shared",
    "admin",
    "public",
    "api",
    "health",
    "super",
    "secret",
    "users",
    "a",
    "b",
    "42",
    "id",
    "v1",
    "img-1.png",
    "",
    "..",
    ".",
    "%2e",
    "%2e%2e",
    // Sanitizer bait: segments the modeled family treats as **inert** — RFC
    // dot-resolution ignores `....`, so the scanner flags no DOT here and the anchor
    // does not climb for them. A strip-and-rescan backend would manufacture a real
    // `../` out of them (`....//` → `../`), reaching behind the anchor. That shape is
    // out of family by design (see `coverage`), and these entries are what make
    // `no_modeled_transform_rewrites_inside_the_anchor` notice if it ever comes *in*.
    "....",
    "...",
    "....;",
    "a%2fb",
    "%2fadmin",
    "..%2fadmin",
    ";x",
    "..;",
    "admin;jsessionid=1",
    "a\\b",
    "%5cadmin",
    "..%5cadmin",
    "a%00b",
    "admin%00",
    "%252e%252e",
    "%252fadmin",
    "%c0%afadmin",
    "%c0%ae%c0%ae",
    "ADMIN",
    "Admin",
    "PUBLIC",
    // Content-encoded forms that decode onto a catalog literal — exercise the
    // content-decode relocation path (`%61dmin` → `admin`, `%41dmin` → `Admin`).
    "%61dmin",
    "%41dmin",
    "%73uper",
    "%70ublic",
    "%68ealth",
    "%61pi",
    "v%31",
    // Fullwidth structural confusables (raw and percent-encoded) — exercise the
    // `with_fullwidth_structure` path (`／` folds to `/`, `．` to `.`).
    "a／b",
    "／admin",
    "..／admin",
    "．．",
    "a；b",
    "%ef%bc%8fadmin",
    // Multi-segment tails with structural bytes at depth — land the scoped verdict's
    // anchor *inside* a subtree (`blob`/`deep/nested` above are uniform, so these
    // exercise its allow paths, including in-subtree `..` climbs at varying radii).
    "blob",
    "deep/nested",
    "k1/k2/k3",
    "k1/k2%2fk3",
    "k1/../k2",
    "k1/k2/..%2fk3",
    "k1/../../k2",
    "k1;v=1/k2",
];

fn build_router(
    specs: &[(char, &str)],
    classes: StructuralClasses,
    layers: DecodeDepth,
    case: CaseSensitivity,
) -> Result<RuleRouter<u32>, RuleRouterError> {
    // Rule ids are positional, so spec `i` gets rule id `i` — the rule value below
    // (`enumerate`'s index) matches it, which the properties' messages rely on.
    let registrations: Vec<PathRegistration<u32>> = specs
        .iter()
        .enumerate()
        .map(|(id, (kind, path))| {
            (if *kind == 's' {
                PathRegistration::subtree(path)
            } else {
                PathRegistration::path(path)
            })
            .all(u32::try_from(id).expect("catalog is small"))
        })
        .collect();
    RuleRouter::from_registrations(
        u32::MAX,
        GuardConfig::new(case, layers)
            .with_mode(GuardMode::RejectAmbiguous)
            .with_structural_classes(classes),
        registrations,
    )
}

// ── Reference backend (the executable normalization model) ──────────────────
// Each field is an independent transform toggle — a flat set of booleans is the
// clearest representation (mirroring `StructuralClasses`).
#[derive(Clone, Copy, Debug)]
struct Backend {
    decode_sep: bool,        // `%2F` (and `\`/`%5C` when backslash is enabled) → `/`
    decode_dot: bool,        // `%2E` → `.`
    decode_unreserved: bool, // every other `%XX` (content) → its byte
    fold_unicode: bool,      // fullwidth `／`·`．`·`；`·`＼` → `/`·`.`·`;`·`\`
    strip_params: bool,      // drop `;…` in each segment
    merge_slashes: bool,     // `//` → `/`
    resolve_dots: bool,      // RFC 3986 §5.2.4 dot-segment removal
    case_fold: bool,         // ASCII lowercase
    truncate_nul: bool,      // cut at the first NUL (`%00`)
}

impl Backend {
    const NONE: Self = Self {
        decode_sep: false,
        decode_dot: false,
        decode_unreserved: false,
        fold_unicode: false,
        strip_params: false,
        merge_slashes: false,
        resolve_dots: false,
        case_fold: false,
        truncate_nul: false,
    };
}
fn modeled_backends(classes: &StructuralClasses, case: CaseSensitivity) -> Vec<Backend> {
    let case_avail = case.is_insensitive();
    let uni_avail = classes.unicode;
    let mut backends = Vec::new();
    for mask in 0u32..(1 << 9) {
        let case_fold = mask & (1 << 5) != 0;
        let truncate_nul = mask & (1 << 6) != 0;
        let fold_unicode = mask & (1 << 8) != 0;
        if (case_fold && !case_avail) || (fold_unicode && !uni_avail) {
            continue; // out of model for this config
        }
        backends.push(Backend {
            decode_sep: mask & 1 != 0,
            decode_dot: mask & (1 << 1) != 0,
            strip_params: mask & (1 << 2) != 0,
            merge_slashes: mask & (1 << 3) != 0,
            resolve_dots: mask & (1 << 4) != 0,
            case_fold,
            truncate_nul,
            // Content decoding is always available in the family, but each
            // backend mask selects whether to perform it.
            decode_unreserved: mask & (1 << 7) != 0,
            fold_unicode,
        });
    }
    backends
}
#[derive(Clone, Copy, Debug, PartialEq, Eq)]
enum Step {
    Trunc,
    DecodeStruct,
    DecodeUnres,
    FoldUni,
    Strip,
    Merge,
    Dots,
    Case,
    // Negative control only: excluded from canonical_order and modeled_backends.
    StripTraversalControl,
}

fn apply(
    step: Step,
    t: &str,
    backend: Backend,
    classes: &StructuralClasses,
    layers: DecodeDepth,
    case_insensitive: bool,
) -> String {
    match step {
        Step::StripTraversalControl => t.replace("../", ""),
        Step::Trunc => truncate_at_nul(t),
        Step::DecodeStruct => decode_pass(t, backend, classes, layers),
        Step::DecodeUnres => decode_unreserved(t),
        Step::FoldUni => fold_unicode(t),
        Step::Strip => strip_params(t),
        Step::Merge => merge_slashes(t),
        Step::Dots => remove_dot_segments(t),
        Step::Case => {
            if case_insensitive {
                t.to_ascii_lowercase()
            } else {
                t.to_owned()
            }
        }
    }
}
fn canonical_order(backend: Backend) -> Vec<Step> {
    let mut steps = Vec::with_capacity(8);
    if backend.truncate_nul {
        steps.push(Step::Trunc);
    }
    if backend.decode_sep || backend.decode_dot {
        steps.push(Step::DecodeStruct);
    }
    if backend.decode_unreserved {
        steps.push(Step::DecodeUnres);
    }
    if backend.fold_unicode {
        steps.push(Step::FoldUni);
    }
    if backend.strip_params {
        steps.push(Step::Strip);
    }
    if backend.merge_slashes {
        steps.push(Step::Merge);
    }
    if backend.resolve_dots {
        steps.push(Step::Dots);
    }
    if backend.case_fold {
        steps.push(Step::Case);
    }
    steps
}
fn normalize_ordered(
    path: &str,
    backend: Backend,
    classes: &StructuralClasses,
    layers: DecodeDepth,
    case_insensitive: bool,
    order: &[Step],
) -> String {
    let mut s = path.to_owned();
    for _ in 0..24 {
        let mut t = s.clone();
        for &step in order {
            t = apply(step, &t, backend, classes, layers, case_insensitive);
        }
        if t == s {
            break;
        }
        s = t;
    }
    s
}
fn normalize(
    path: &str,
    backend: Backend,
    classes: &StructuralClasses,
    layers: DecodeDepth,
    case_insensitive: bool,
) -> String {
    normalize_ordered(
        path,
        backend,
        classes,
        layers,
        case_insensitive,
        &canonical_order(backend),
    )
}
fn permuted_order(steps: &[Step], seed: u64) -> Vec<Step> {
    let mut state = seed;
    let mut next = move || {
        // SplitMix64 — a whole PRNG in three lines, which is all a shuffle needs.
        state = state.wrapping_add(0x9E37_79B9_7F4A_7C15);
        let mut z = state;
        z = (z ^ (z >> 30)).wrapping_mul(0xBF58_476D_1CE4_E5B9);
        z = (z ^ (z >> 27)).wrapping_mul(0x94D0_49BB_1331_11EB);
        z ^ (z >> 31)
    };
    let mut out = steps.to_vec();
    for i in (1..out.len()).rev() {
        let j = usize::try_from(next() % (i as u64 + 1)).unwrap_or(0);
        out.swap(i, j);
    }
    out
}

fn hex_val(b: u8) -> Option<u8> {
    match b {
        b'0'..=b'9' => Some(b - b'0'),
        b'a'..=b'f' => Some(b - b'a' + 10),
        b'A'..=b'F' => Some(b - b'A' + 10),
        _ => None,
    }
}

fn pct(b: &[u8], i: usize) -> Option<u8> {
    if *b.get(i)? != b'%' {
        return None;
    }
    Some(hex_val(*b.get(i + 1)?)? * 16 + hex_val(*b.get(i + 2)?)?)
}
fn starts_ci(b: &[u8], i: usize, pat: &[u8]) -> bool {
    pat.iter()
        .enumerate()
        .all(|(k, &p)| b.get(i + k).is_some_and(|c| c.to_ascii_lowercase() == p))
}
fn decode_pass(t: &str, backend: Backend, c: &StructuralClasses, layers: DecodeDepth) -> String {
    let b = t.as_bytes();
    let mut out = Vec::with_capacity(b.len());
    let mut i = 0;
    while i < b.len() {
        if b[i] == b'%' {
            // Double-encoding: peel `%25` → `%`, let the next pass decode it.
            if layers.is_up_to_two() && starts_ci(b, i, b"%25") {
                out.push(b'%');
                i += 3;
                continue;
            }
            // Overlong UTF-8 (2-byte canonical forms `%C0%AF` / `%C0%AE`).
            if backend.decode_sep && c.overlong_slash && starts_ci(b, i, b"%c0%af") {
                out.push(b'/');
                i += 6;
                continue;
            }
            if backend.decode_dot && c.overlong_dot && starts_ci(b, i, b"%c0%ae") {
                out.push(b'.');
                i += 6;
                continue;
            }
            if let Some(byte) = pct(b, i) {
                let decoded = match byte {
                    b'/' if backend.decode_sep => Some(b'/'),
                    b'\\' if backend.decode_sep && c.backslash => Some(b'/'),
                    b'.' if backend.decode_dot => Some(b'.'),
                    _ => None,
                };
                if let Some(d) = decoded {
                    out.push(d);
                    i += 3;
                    continue;
                }
            }
            out.push(b[i]);
            i += 1;
        } else if b[i] == b'\\' && backend.decode_sep && c.backslash {
            out.push(b'/');
            i += 1;
        } else {
            out.push(b[i]);
            i += 1;
        }
    }
    String::from_utf8(out).unwrap_or_else(|_| t.to_owned())
}
fn decode_unreserved(t: &str) -> String {
    if !t.contains('%') {
        return t.to_owned();
    }
    let b = t.as_bytes();
    let mut out = Vec::with_capacity(b.len());
    let mut i = 0;
    while i < b.len() {
        let content =
            pct(b, i).filter(|byte| !matches!(byte, b'/' | b'.' | b';' | b'\\' | 0 | b'%'));
        if let Some(byte) = content {
            out.push(byte);
            i += 3;
        } else {
            out.push(b[i]);
            i += 1;
        }
    }
    String::from_utf8(out).unwrap_or_else(|_| t.to_owned())
}
fn fold_unicode(t: &str) -> String {
    if t.is_ascii() {
        return t.to_owned();
    }
    t.replace('／', "/")
        .replace('．', ".")
        .replace('；', ";")
        .replace('＼', "\\")
}

fn truncate_at_nul(t: &str) -> String {
    let cut = [t.find("%00"), t.find('\0')].into_iter().flatten().min();
    match cut {
        Some(i) => t[..i].to_owned(),
        None => t.to_owned(),
    }
}

fn strip_params(t: &str) -> String {
    t.split('/')
        .map(|seg| seg.split(';').next().unwrap_or(seg))
        .collect::<Vec<_>>()
        .join("/")
}

fn merge_slashes(t: &str) -> String {
    let mut out = String::with_capacity(t.len());
    let mut prev_slash = false;
    for ch in t.chars() {
        if ch == '/' {
            if prev_slash {
                continue;
            }
            prev_slash = true;
        } else {
            prev_slash = false;
        }
        out.push(ch);
    }
    out
}
fn remove_dot_segments(path: &str) -> String {
    let mut input = path.to_owned();
    let mut output = String::new();
    while !input.is_empty() {
        if let Some(rest) = input.strip_prefix("../") {
            input = rest.to_owned();
        } else if let Some(rest) = input.strip_prefix("./") {
            input = rest.to_owned();
        } else if let Some(rest) = input.strip_prefix("/./") {
            input = format!("/{rest}");
        } else if input == "/." {
            input = "/".to_owned();
        } else if let Some(rest) = input.strip_prefix("/../") {
            input = format!("/{rest}");
            pop_last_segment(&mut output);
        } else if input == "/.." {
            input = "/".to_owned();
            pop_last_segment(&mut output);
        } else if input == "." || input == ".." {
            input.clear();
        } else {
            // Move the first path segment (leading `/` plus up to the next `/`).
            let after = if let Some(idx) = input[1..].find('/') {
                idx + 1
            } else {
                input.len()
            };
            output.push_str(&input[..after]);
            input = input[after..].to_owned();
        }
    }
    output
}

fn pop_last_segment(output: &mut String) {
    if let Some(idx) = output.rfind('/') {
        output.truncate(idx);
    } else {
        output.clear();
    }
}
fn config_from_bits(bits: u8) -> (StructuralClasses, DecodeDepth, CaseSensitivity) {
    let mut c = StructuralClasses::new();
    if bits & 1 == 0 {
        c = c.without_backslash();
    }
    let mut overlong = Vec::new();
    if bits & 2 != 0 {
        overlong.push(StructuralChar::Slash);
    }
    if bits & 4 != 0 {
        overlong.push(StructuralChar::Dot);
    }
    if !overlong.is_empty() {
        c = c.with_overlong(&overlong);
    }
    let layers = if bits & 8 != 0 {
        DecodeDepth::UpToTwo
    } else {
        DecodeDepth::UpToOne
    };
    if bits & 16 != 0 {
        c = c.with_fullwidth_structure();
    }
    let case = if bits & 32 != 0 {
        CaseSensitivity::Insensitive
    } else {
        CaseSensitivity::Sensitive
    };
    (c, layers, case)
}
fn fuzz_guard_relocation(data: &[u8]) {
    let specs_mask = data.first().copied().unwrap_or(0xFF);
    let (classes, layers, case) = config_from_bits(data.get(1).copied().unwrap_or(0));
    // The guard only ever sees `uri.path()`, which is origin-form (a leading `/`). Model
    // dot-segment resolver, which assumes a rooted path, is never handed an impossible one.
    // A bare `/` prepend preserves `//` and every structural byte; it only roots the path.
    let raw = String::from_utf8_lossy(data.get(2..).unwrap_or(&[]));
    let path = if raw.starts_with('/') {
        raw.into_owned()
    } else {
        format!("/{raw}")
    };

    // The first 8 entries are mask-controlled; any beyond are always included
    let specs: Vec<(char, &str)> = CATALOG
        .iter()
        .enumerate()
        .filter(|(i, _)| *i >= 8 || specs_mask & (1 << i) != 0)
        .map(|(_, s)| *s)
        .collect();
    if specs.is_empty() {
        return;
    }
    let Ok(router) = build_router(&specs, classes.clone(), layers, case) else {
        return; // unbuildable subset (matchit conflict) — skip
    };

    // Rule identity for the oracle: the matched registration's id, or `None` for the
    // default rule — which participates as a rule of its own (a relocation onto or off
    // the default rule is a bypass like any other).
    let raw_rule = raw_identity(&router, &path, &http::Method::GET);
    if denial(&router, &path, &http::Method::GET).is_some() {
        return; // denied — sound regardless of any backend
    }
    for backend in modeled_backends(&classes, case) {
        let normalized = normalize(&path, backend, &classes, layers, case.is_insensitive());
        if normalized == path {
            continue;
        }
        let reloc_rule = raw_identity(&router, &normalized, &http::Method::GET);
        assert_eq!(
            reloc_rule, raw_rule,
            "BYPASS: guard allowed {path:?} (rule {raw_rule:?}) but backend {backend:?} \
             normalizes it to {normalized:?}, which routes to rule {reloc_rule:?}"
        );
    }
}

#[test]
fn anchor_property_detects_strip_and_rescan_mutation() {
    let classes = StructuralClasses::new();
    let layers = DecodeDepth::UpToOne;
    let router = build_router(
        &[('s', "/safe")],
        classes.clone(),
        layers,
        CaseSensitivity::Sensitive,
    )
    .expect("fixed table builds");
    let path = "/safe/....//admin";
    let anchor = router
        .structural_anchor(path)
        .expect("witness must exercise an anchor");
    assert_eq!(anchor, "/safe/..../");
    let backend = Backend {
        merge_slashes: true,
        resolve_dots: true,
        ..Backend::NONE
    };
    let ordinary = normalize(path, backend, &classes, layers, false);
    assert_eq!(ordinary, "/safe/..../admin");
    check_anchor_preserved(path, anchor, &ordinary).expect("modeled transforms preserve anchor");

    // A single-pass sanitizer manufactures ../ from ....//. Dot resolution then
    // removes a segment before the original trigger, outside the modeled family.
    let mutated = normalize_ordered(
        path,
        backend,
        &classes,
        layers,
        false,
        &[Step::StripTraversalControl, Step::Merge, Step::Dots],
    );
    assert_eq!(mutated, "/admin");
    let error = check_anchor_preserved(path, anchor, &mutated)
        .err().expect("the same property must reject the incompatible transform");
    assert!(error.contains("ANCHOR VIOLATED"));
}



#[test]
fn remove_dot_segments_matches_rfc_examples() {
    // RFC 3986 §5.2.4 worked examples.
    assert_eq!(remove_dot_segments("/a/b/c/./../../g"), "/a/g");
    assert_eq!(remove_dot_segments("/a/../admin"), "/admin");
    assert_eq!(remove_dot_segments("/admin/../.."), "/");
    assert_eq!(remove_dot_segments("/public/file.txt"), "/public/file.txt");
}

#[test]
fn decode_pass_is_scoped_to_structural_bytes() {
    let c = StructuralClasses::new().without_backslash();
    let all_decode = Backend {
        decode_sep: true,
        decode_dot: true,
        ..Backend::NONE
    };
    let single = DecodeDepth::UpToOne;
    assert_eq!(decode_pass("/a%2fb", all_decode, &c, single), "/a/b");
    assert_eq!(decode_pass("/a%2eb", all_decode, &c, single), "/a.b");
    // A non-structural unreserved escape is left intact — by design.
    assert_eq!(decode_pass("/%61dmin", all_decode, &c, single), "/%61dmin");
    // Backslash only decodes when the class is enabled.
    assert_eq!(decode_pass("/a\\b", all_decode, &c, single), "/a\\b");
    let with_back = StructuralClasses::new().with_backslash();
    assert_eq!(decode_pass("/a\\b", all_decode, &with_back, single), "/a/b");
    // The %25 double-encode wrapper peels only under an UpToTwo declaration.
    assert_eq!(decode_pass("/a%252fb", all_decode, &c, single), "/a%252fb");
    assert_eq!(
        decode_pass("/a%252fb", all_decode, &c, DecodeDepth::UpToTwo),
        "/a%2fb"
    );
}

#[test]
fn decode_unreserved_decodes_content_not_structure() {
    // Content escapes decode to their byte…
    assert_eq!(decode_unreserved("/%61dmin"), "/admin");
    assert_eq!(decode_unreserved("/a%20b"), "/a b");
    // …but structural bytes and the %25 double-encode wrapper are left to their
    // own steps, so this never produces `/`, `.`, `;`, `\`, NUL, or a fresh `%`.
    assert_eq!(decode_unreserved("/a%2fb"), "/a%2fb");
    assert_eq!(decode_unreserved("/a%2eb"), "/a%2eb");
    assert_eq!(decode_unreserved("/a%252fb"), "/a%252fb");
    // Idempotent (no new escapes appear).
    assert_eq!(decode_unreserved(&decode_unreserved("/%61%20b")), "/a b");
}

#[test]
fn fold_unicode_folds_structural_confusables_only() {
    assert_eq!(fold_unicode("/api／secret"), "/api/secret");
    assert_eq!(fold_unicode("/a／..／b"), "/a/../b");
    assert_eq!(fold_unicode("/a．b；c"), "/a.b;c");
    // Fullwidth *letters* are content (Phase 2), not folded by the Phase-1 model.
    assert_eq!(fold_unicode("/ＡＤＭＩＮ"), "/ＡＤＭＩＮ");
    // ASCII fast-path is a no-op.
    assert_eq!(fold_unicode("/plain/path"), "/plain/path");
}

#[test]
fn strip_and_merge_helpers() {
    assert_eq!(strip_params("/a;x=1/b;y/c"), "/a/b/c");
    assert_eq!(merge_slashes("/a//b///c"), "/a/b/c");
    assert_eq!(truncate_at_nul("/public%00/admin"), "/public");
}
fn permutations(steps: &[Step]) -> Vec<Vec<Step>> {
    if steps.is_empty() {
        return vec![Vec::new()];
    }
    let mut out = Vec::new();
    for i in 0..steps.len() {
        let mut rest = steps.to_vec();
        let head = rest.remove(i);
        for mut tail in permutations(&rest) {
            tail.insert(0, head);
            out.push(tail);
        }
    }
    out
}
#[test]
fn fixed_order_fixpoint_is_not_order_independent() {
    let c = StructuralClasses::new();
    let backend = Backend {
        strip_params: true,
        merge_slashes: true,
        resolve_dots: true,
        ..Backend::NONE
    };
    let path = "/admin;x//../b";

    // `normalize` merges `//` first, so the `..` climbs out of `/admin` entirely.
    assert_eq!(
        normalize(path, backend, &c, DecodeDepth::UpToOne, false),
        "/b"
    );
    // A backend that resolves dot-segments on the raw path first has its `..`
    // consume the *empty* segment instead — landing inside `/admin`, a rule the
    // model's own order never reaches from this input.
    assert_eq!(
        normalize_ordered(
            path,
            backend,
            &c,
            DecodeDepth::UpToOne,
            false,
            &[Step::Strip, Step::Dots, Step::Merge],
        ),
        "/admin/b"
    );

    // Why that gap is not a hole in the soundness claim: the guard never had to
    // pick a normalization. Both resolutions live past the same anchor, the
    // anchored region is not one rule, so the path is denied and neither
    // resolution is ever reachable.
    let router = build_router(
        &[('s', "/admin"), ('e', "/b")],
        c,
        DecodeDepth::UpToOne,
        CaseSensitivity::Sensitive,
    )
    .expect("table builds");
    assert!(denial(&router, path, &http::Method::GET).is_some());
    // The two transform orders reach different rules, requiring denial.
    assert_ne!(
        raw_identity(&router, "/b", &http::Method::GET),
        raw_identity(&router, "/admin/b", &http::Method::GET),
    );
}
#[test]
fn no_permuted_order_relocates_an_allowed_path() {
    // Structural mutators crossed with prefixes that land the anchor in each
    // interesting place: inside a uniform subtree, inside a partially-registered
    // one, and at the root.
    const PREFIXES: &[&str] = &["", "/blob", "/deep/nested", "/admin", "/a", "/users/4"];
    const TAILS: &[&str] = &[
        "k1//../k2",
        "k1/..//k2",
        "k1;v//../k2",
        "k1;v/../k2",
        "a%2fb",
        "..%2fadmin",
        "%2e%2e//admin",
        "a%252fb",
        "k1/./k2",
        "a;x/../..;/b",
        "ADMIN;x//b",
        "a／..／b",
        // Sanitizer bait — inert to the modeled family, structure-bearing to a
        // strip-and-rescan backend (see the VOCAB entries of the same shape).
        "....//k2",
        "..../k2",
        "k1/....//../k2",
    ];

    let classes = StructuralClasses::new().with_backslash();
    let layers = DecodeDepth::UpToTwo;
    let case = CaseSensitivity::Insensitive;
    let router = build_router(CATALOG, classes.clone(), layers, case).expect("catalog builds");
    let paths: Vec<String> = PREFIXES
        .iter()
        .flat_map(|p| TAILS.iter().map(move |t| format!("{p}/{t}")))
        .collect();

    let backends: Vec<Backend> = modeled_backends(&classes, case)
        .into_iter()
        .filter(|b| canonical_order(*b).len() <= 4)
        .collect();

    let mut allowed = 0usize;
    for path in &paths {
        // Denied paths are sound under any ordering — nothing is forwarded.
        if denial(&router, path, &http::Method::GET).is_some() {
            continue;
        }
        allowed += 1;
        let raw_rule = raw_identity(&router, path, &http::Method::GET);
        for backend in &backends {
            for order in permutations(&canonical_order(*backend)) {
                let normalized =
                    normalize_ordered(path, *backend, &classes, layers, true, &order);
                if normalized == *path {
                    continue;
                }
                let reloc_rule = raw_identity(&router, &normalized, &http::Method::GET);
                assert_eq!(
                    reloc_rule, raw_rule,
                    "BYPASS: guard allowed {path:?} (rule {raw_rule:?}) but backend \
                     {backend:?} applying {order:?} normalizes it to {normalized:?}, \
                     which routes to rule {reloc_rule:?}"
                );
            }
        }
    }
    // The property is vacuous if the guard denied everything — this test only
    // means something over paths that were actually forwarded.
    assert!(
        allowed >= 12,
        "only {allowed} of {} paths were allowed — the permuted-order check has \
         nothing to bite on; refresh the path set",
        paths.len()
    );
}
fn relocations(
    router: &RuleRouter<u32>,
    path: &str,
    classes: &StructuralClasses,
) -> Vec<String> {
    let raw = raw_identity(router, path, &http::Method::GET);
    modeled_backends(classes, CaseSensitivity::Sensitive)
        .into_iter()
        .map(|b| normalize(path, b, classes, DecodeDepth::UpToOne, false))
        .filter(|n| n != path)
        .filter(|n| raw_identity(router, n, &http::Method::GET) != raw)
        .collect()
}
#[test]
fn a_matrix_param_under_a_lone_param_route_is_denied_without_a_relocation() {
    let classes = StructuralClasses::new();
    let router = build_router(
        &[('e', "/users/{id}")],
        classes.clone(),
        DecodeDepth::UpToOne,
        CaseSensitivity::Sensitive,
    )
    .expect("table builds");

    assert!(
        denial(&router, "/users/4;2", &http::Method::GET)
            .is_some()
    );
    assert_eq!(
        relocations(&router, "/users/4;2", &classes),
        Vec::<String>::new(),
        "the deny is pure over-approximation — no modeled backend leaves the rule"
    );

    // Axiom 6 is what makes that cost escapable: the canonical spelling of the
    // same request is never denied.
    assert!(
        denial(&router, "/users/4", &http::Method::GET)
            .is_none()
    );
}
#[test]
fn subtree_registration_removes_the_over_denial() {
    let classes = StructuralClasses::new();
    let router = build_router(
        &[('s', "/users")],
        classes.clone(),
        DecodeDepth::UpToOne,
        CaseSensitivity::Sensitive,
    )
    .expect("table builds");

    for path in ["/users/4;2", "/users/a%2fb", "/users/4/../x"] {
        assert!(
            denial(&router, path, &http::Method::GET).is_none(),
            "{path} should flow under a uniform subtree"
        );
        assert_eq!(
            relocations(&router, path, &classes),
            Vec::<String>::new(),
            "…and it is sound to let it: nothing relocates out of the subtree"
        );
    }
}
#[test]
fn uniformity_is_what_buys_the_tolerance_and_nul_is_exempt() {
    let classes = StructuralClasses::new();
    let router = build_router(
        &[('s', "/blob"), ('e', "/health")],
        classes,
        DecodeDepth::UpToOne,
        CaseSensitivity::Sensitive,
    )
    .expect("table builds");

    assert!(
        denial(&router, "/blob/a%2fb", &http::Method::GET)
            .is_none()
    );
    assert!(
        denial(&router, "/blob/k1/../k2", &http::Method::GET)
            .is_none()
    );
    // The same encoded separator against an exact route, where the anchored region
    // holds another rule and the default fall-through.
    assert!(
        denial(&router, "/health%2fx", &http::Method::GET)
            .is_some()
    );
    // NUL keeps its unconditional deny even where the anchor is uniform.
    assert!(
        denial(&router, "/blob/a%00b", &http::Method::GET)
            .is_some()
    );
}
#[test]
fn the_content_axis_denies_only_on_an_actual_relocation() {
    let classes = StructuralClasses::new();
    let build = |specs: &[(char, &str)]| {
        build_router(
            specs,
            classes.clone(),
            DecodeDepth::UpToOne,
            CaseSensitivity::Sensitive,
        )
        .expect("table builds")
    };

    assert!(
        denial(&build(&[('e', "/health")]), "/%61dmin", &http::Method::GET)
            .is_none()
    );
    assert!(
        denial(&build(&[('s', "/admin")]), "/%61dmin", &http::Method::GET)
            .is_some()
    );
}

#[test]
fn guard_relocation() {
    for path in [
        "/public/../admin",
        "/api/%2e%2e/admin",
        "/a\u{0}b",
        "/a%00b",
        "/public/..%2fadmin",
        "//admin",
        "/admin%2f",
        "/api／secret",
        "/public/%252e%252e/admin",
        "/blob/k1/k2%2fk3",
        "/blob/k1/../k2",
        "/blob/../admin",
        "//",
        "/%61dmin/%c0%afadmin",
        "/admin;x=y/",
        "/;x=y/admin/",
    ] {
        let mut data = vec![0xFF, 0x3F];
        data.extend_from_slice(path.as_bytes());
        fuzz_guard_relocation(&data);
    }
    let mut stream = Stream(9);
    for _ in 0..300 {
        let mut data = vec![stream.next() as u8, stream.next() as u8];
        data.extend_from_slice(stream.path().as_bytes());
        fuzz_guard_relocation(&data);
    }
}

fn method_from_index(index: usize) -> http::Method {
    match index % 5 {
        0 => http::Method::GET,
        1 => http::Method::POST,
        2 => http::Method::PUT,
        3 => http::Method::PATCH,
        _ => http::Method::DELETE,
    }
}

#[test]
fn guard_denies_every_modeled_relocation() {
    let mut stream = Stream(10);
    for _ in 0..200 {
        let (classes, layers, case) = config_from_bits(stream.next() as u8);
        let method = match stream.below(6) {
            5 => http::Method::from_bytes(b"CUSTOM").expect("valid method"),
            index => method_from_index(index),
        };
        let qualified = stream.next() & 1 == 0;
        let mut registrations: Vec<PathRegistration<u32>> = Vec::new();
        for (kind, path) in CATALOG {
            if stream.next() & 1 == 0 {
                continue;
            }
            let id = registrations.len() as u32;
            let registration = if *kind == 's' {
                PathRegistration::subtree(path)
            } else {
                PathRegistration::path(path)
            };
            let mask = stream.below(32);
            let registration = if !qualified || mask == 0 {
                registration.all(id)
            } else {
                registration.methods(
                    (0..5)
                        .filter(|bit| mask & (1 << bit) != 0)
                        .map(method_from_index)
                        .collect(),
                    id,
                )
            };
            registrations.push(registration.fallback_inherit(stream.next() & 1 == 0));
        }
        let Ok(router) = RuleRouter::from_registrations(
            u32::MAX,
            GuardConfig::new(case, layers).with_structural_classes(classes.clone()),
            registrations,
        ) else {
            continue;
        };
        for _ in 0..4 {
            let path = stream.path();
            let seed = stream.next();
            let raw_rule = raw_identity(&router, &path, &method);
            let allowed = denial(&router, &path, &method).is_none();
            let anchor = router.structural_anchor(&path);
            for (i, backend) in modeled_backends(&classes, case).into_iter().enumerate() {
                let canonical = canonical_order(backend);
                let permuted = permuted_order(
                    &canonical,
                    seed ^ (i as u64).wrapping_mul(0x9E37_79B9_7F4A_7C15),
                );
                for order in [&canonical, &permuted] {
                    let normalized = normalize_ordered(
                        &path,
                        backend,
                        &classes,
                        layers,
                        case.is_insensitive(),
                        order,
                    );
                    if let Some(anchor) = anchor {
                        check_anchor_preserved(&path, anchor, &normalized).expect("anchor");
                    }
                    if allowed {
                        assert_eq!(
                            raw_identity(&router, &normalized, &method),
                            raw_rule,
                            "{path:?} becomes {normalized:?}"
                        );
                    }
                }
            }
        }
    }
}
