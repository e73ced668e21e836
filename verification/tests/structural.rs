use huskarl_route_guard::config::{
    DecodeDepth, StructuralChar, StructuralClass, StructuralClasses, StructuralProbe,
};
use huskarl_route_guard::structural::{
    classes_present, enabled_classes, enabled_encodings, primary_class, scan, ClassSet, Encodings,
};

const NOTHING: ClassSet = ClassSet {
    separator: false,
    dot_segment: false,
    param: false,
    truncation: false,
    case: false,
    backslash: false,
};
const SEPARATOR: ClassSet = ClassSet {
    separator: true,
    ..NOTHING
};
const DOT_SEGMENT: ClassSet = ClassSet {
    dot_segment: true,
    ..NOTHING
};
const PARAM: ClassSet = ClassSet {
    param: true,
    ..NOTHING
};
const TRUNCATION: ClassSet = ClassSet {
    truncation: true,
    ..NOTHING
};
const CASE: ClassSet = ClassSet {
    case: true,
    ..NOTHING
};
const BACKSLASH: ClassSet = ClassSet {
    backslash: true,
    ..NOTHING
};

fn union(sets: &[ClassSet]) -> ClassSet {
    sets.iter().fold(NOTHING, |all, set| all.union(*set))
}

fn all_enabled() -> ClassSet {
    union(&[
        SEPARATOR,
        DOT_SEGMENT,
        PARAM,
        TRUNCATION,
        CASE,
        BACKSLASH,
    ])
}

fn present(path: &str) -> ClassSet {
    classes_present(path, all_enabled(), Encodings::none())
}

fn has_dot_segment(path: &str, enabled: ClassSet, enc: Encodings) -> bool {
    scan(path, enabled, enc).classes.contains_any(DOT_SEGMENT)
}

// ---- step 1: the alphabet scanner ----

#[test]
fn classes_present_detects_default_alphabet() {
    assert!(present("/files/users").is_empty());
    assert!(present("/files/a.txt").is_empty()); // in-segment dot is not a dot-segment
    assert!(present("/files/a%2fb").contains_any(SEPARATOR));
    assert!(present("/a/../b").contains_any(DOT_SEGMENT));
    assert!(present("/a/%2e%2e/b").contains_any(DOT_SEGMENT));
    assert!(present("/a/.").contains_any(DOT_SEGMENT));
    assert!(present("/a;jsessionid=1").contains_any(PARAM));
    assert!(present("/a%3bx").contains_any(PARAM));
    assert!(present("/Admin").contains_any(CASE));
    assert!(present("/a%00b").contains_any(TRUNCATION));
}

#[test]
fn classes_present_detects_raw_nul() {
    // Regression (found by the `guard_relocation` fuzz target): a *raw* NUL truncates a
    // C-string backend exactly as `%00` does, so it must flag TRUNCATION on its own —
    // not only in percent-encoded form. The fuzzer hit `/a\0…`, which matched the
    // default rule and was allowed, while a NUL-truncating backend served it as `/a`.
    assert!(
        present("/a\u{0}b").contains_any(TRUNCATION),
        "raw NUL"
    );
    assert!(
        present("/a\u{0}").contains_any(TRUNCATION),
        "trailing raw NUL"
    );
    // Both raw and encoded forms now flag, consistent with raw vs encoded `;`/`\`.
    assert!(
        present("/a%00b").contains_any(TRUNCATION),
        "encoded NUL"
    );
}

/// **Detection-table audit.** Every structural class must be flagged in *every*
/// representation the scanner models — raw byte, `%XX`, double `%25XX`, overlong (for
/// `/`·`.`), and fullwidth (raw + percent-encoded) — under the flags that enable that
/// representation. The `..%3b` (encoded param) and raw-NUL bugs were both *missing cells*
/// in this table; this pins the whole grid so a future asymmetry breaks the build.
///
/// The invariant that matters most: a *raw* structural byte must be flagged here, because
/// the content-decode relocation check only runs on paths containing `%` and so cannot
/// back-stop raw bytes (that was exactly the raw-NUL hole).
#[test]
fn detection_table_complete() {
    let enabled = all_enabled();
    let enc = Encodings {
        overlong_slash: true,
        overlong_dot: true,
        double_decode: true,
        unicode: true,
    };

    // (label, path, class that must be present)
    let cells: &[(&str, &str, ClassSet)] = &[
        // ── SEPARATOR ──
        ("sep raw //", "/a//b", SEPARATOR),
        ("sep %2f", "/a%2fb", SEPARATOR),
        ("sep double %252f", "/a%252fb", SEPARATOR),
        ("sep overlong %c0%af", "/a%c0%afb", SEPARATOR),
        ("sep fullwidth raw", "/a／b", SEPARATOR),
        ("sep fullwidth pct", "/a%ef%bc%8fb", SEPARATOR),
        // ── DOT_SEGMENT (direct) ──
        ("dot raw ..", "/a/../b", DOT_SEGMENT),
        ("dot %2e", "/a/%2e/b", DOT_SEGMENT),
        ("dot double %252e", "/a/%252e/b", DOT_SEGMENT),
        ("dot overlong %c0%ae", "/a/%c0%ae/b", DOT_SEGMENT),
        ("dot fullwidth raw", "/a/．/b", DOT_SEGMENT),
        ("dot fullwidth pct", "/a/%ef%bc%8e/b", DOT_SEGMENT),
        // ── DOT_SEGMENT revealed: literal `..` flanked by an encoded delimiter ──
        ("dot via %2f sep", "/a%2f..%2fb", DOT_SEGMENT),
        ("dot via raw ; param", "/a/..;x/b", DOT_SEGMENT),
        ("dot via %3b param", "/a/..%3bx/b", DOT_SEGMENT),
        (
            "dot via double %252f",
            "/a%252f..%252fb",
            DOT_SEGMENT,
        ),
        ("dot via fullwidth sep", "/a／..／b", DOT_SEGMENT),
        ("dot via raw \\ sep", "/a\\..\\b", DOT_SEGMENT),
        // ── PARAM ──
        ("param raw ;", "/a;x", PARAM),
        ("param %3b", "/a%3bx", PARAM),
        ("param double %253b", "/a%253bx", PARAM),
        ("param fullwidth raw", "/a；x", PARAM),
        ("param fullwidth pct", "/a%ef%bc%9bx", PARAM),
        // ── BACKSLASH ──
        ("backslash raw", "/a\\b", BACKSLASH),
        ("backslash %5c", "/a%5cb", BACKSLASH),
        ("backslash double %255c", "/a%255cb", BACKSLASH),
        ("backslash fullwidth raw", "/a＼b", BACKSLASH),
        (
            "backslash fullwidth pct",
            "/a%ef%bc%bcb",
            BACKSLASH,
        ),
        // ── CASE (runtime coverage masks this out) ──
        ("case raw", "/Admin", CASE),
        // ── TRUNCATION ──
        ("nul raw", "/a\u{0}b", TRUNCATION),
        ("nul %00", "/a%00b", TRUNCATION),
        ("nul double %2500", "/a%2500b", TRUNCATION),
    ];
    for (label, path, class) in cells {
        assert!(
            classes_present(path, enabled, enc).contains_any(*class),
            "MISSING detection cell: {label} — {path:?} must flag {class:?}"
        );
    }

    // Every interpretation now uses the same scanner. Runtime positional
    // analysis masks CASE; exact rule comparison still handles case folding.
    assert!(classes_present("/%41dmin", enabled, enc).contains_any(CASE));

    // Known, documented scope limit (not a gap): overlong UTF-8 is modeled only for `/`
    // and `.` (the traversal vector; see `StructuralChar`), so overlong `;`/`\`/NUL are
    // intentionally not recognised — reach for a `StructuralProbe` if a backend needs it.
    assert!(
        classes_present("/a%c0%bbx", enabled, enc).is_empty(),
        "overlong `;` is out of the modeled set by design"
    );
}

#[test]
fn classes_present_flags_param_revealed_dot_segment() {
    // `..;/` (Tomcat vector): `;`-strip turns `..;` into `..` → dot-segment.
    assert!(present("/admin/..;/secret").contains_any(DOT_SEGMENT));
    assert!(present("/a/.;x=1/b").contains_any(DOT_SEGMENT));
    // A `..` *after* a `;` is a param value, stripped away — not a dot-segment.
    let c = present("/a/x;..");
    assert!(!c.contains_any(DOT_SEGMENT));
    // An ordinary filename with dots is still not a dot-segment.
    assert!(!present("/files/v1..2.txt").contains_any(DOT_SEGMENT));
}

#[test]
fn classes_present_detects_backslash() {
    assert!(present("/a\\b").contains_any(BACKSLASH));
    assert!(present("/a%5cb").contains_any(BACKSLASH));
    assert!(present("/a%5Cb").contains_any(BACKSLASH));
    assert!(!present("/a/b").contains_any(BACKSLASH));
}

#[test]
fn classes_present_ignores_non_structural_escapes() {
    // %20 (space) is not structural; a literal `/` is the normal separator.
    let c = present("/files/a%20b/c");
    assert!(!c.contains_any(SEPARATOR));
    assert!(!c.contains_any(DOT_SEGMENT));
    assert!(!c.contains_any(PARAM));
}

#[test]
fn classes_present_combines_multiple() {
    let c = present("/a%2fb/../c;d");
    assert!(c.contains_any(SEPARATOR));
    assert!(c.contains_any(DOT_SEGMENT));
    assert!(c.contains_any(PARAM));
}

#[test]
fn dot_segment_revealed_through_encoded_matrix_param() {
    let all = all_enabled();
    let none = Encodings::none();
    // The `;` introducer must be honored in every form the byte scan calls a
    // PARAM, not just the literal one — else `..%3bx` flags only PARAM, which an
    // opaque blob tolerates, and a `;`-stripping backend climbs out of the blob.
    assert!(has_dot_segment("/files/..;x/y", all, none), "literal `;`");
    assert!(
        has_dot_segment("/files/..%3bx/y", all, none),
        "single `%3b`"
    );
    assert!(
        has_dot_segment("/files/..%3Bx/y", all, none),
        "uppercase `%3B`"
    );
    // A `..` that is the param *value* (after the `;`) is still not a dot-segment,
    // in encoded form just as in literal form.
    assert!(
        !has_dot_segment("/files/x%3b..", all, none),
        "`..` is the param value"
    );
    // Double-encoded `%253b` and fullwidth `；` are gated by their encoding switch,
    // mirroring the scanner.
    let double = Encodings {
        double_decode: true,
        ..Encodings::none()
    };
    assert!(
        has_dot_segment("/files/..%253bx/y", all, double),
        "double `%253b` on"
    );
    assert!(
        !has_dot_segment("/files/..%253bx/y", all, none),
        "double `%253b` off"
    );
    let uni = Encodings {
        unicode: true,
        ..Encodings::none()
    };
    assert!(
        has_dot_segment("/files/..；x/y", all, uni),
        "fullwidth `；` on"
    );
    assert!(
        !has_dot_segment("/files/..；x/y", all, none),
        "fullwidth `；` off"
    );
}

#[test]
fn dot_segment_detected_through_encoded_separators() {
    let all = all_enabled();
    let none = Encodings::none();
    // A literal `..` flanked by *encoded* slashes is a dot-segment once the
    // backend decodes — must be flagged (the bypass this fix closes).
    assert!(has_dot_segment("/files/a%2f..%2fb", all, none));
    assert!(has_dot_segment("/files/..%2fadmin", all, none));
    // `;`-strip composed with an encoded slash (`a%2f..;x%2fb` → `a/../b`).
    assert!(has_dot_segment("/files/a%2f..;x%2fb", all, none));
    // In-segment dots and a plain encoded-slash blob key are NOT dot-segments.
    assert!(!has_dot_segment("/files/v1..2", all, none));
    assert!(!has_dot_segment("/files/a%2fb", all, none));

    // Gating: `%5C` reveals a dot-segment only when BACKSLASH is enabled, and
    // `%2F` only when SEPARATOR is enabled — matching what the backend models.
    let no_back = union(&[SEPARATOR, DOT_SEGMENT, PARAM]);
    assert!(!has_dot_segment("/files/a%5c..%5cb", no_back, none));
    assert!(has_dot_segment("/files/a%5c..%5cb", all, none));
    assert!(!has_dot_segment(
        "/files/a%2f..%2fb",
        DOT_SEGMENT,
        none
    ));

    // Overlong slash reveals it only with the overlong encoding switch on.
    let overlong = Encodings {
        overlong_slash: true,
        overlong_dot: false,
        double_decode: false,
        unicode: false,
    };
    assert!(has_dot_segment("/files/a%c0%af..%c0%afb", all, overlong));
    assert!(!has_dot_segment("/files/a%c0%af..%c0%afb", all, none));
}

// ---- the positional facts (earliest offset + dot pops) ----

#[test]
fn earliest_offset_per_form() {
    let trio = union(&[SEPARATOR, DOT_SEGMENT, PARAM]);
    let at = |path: &str, enc: Encodings| scan(path, trio, enc).earliest;
    // Escapes report the `%`; raw bytes report themselves.
    assert_eq!(at("/a%2fb", Encodings::none()), Some(2));
    assert_eq!(at("/ab;x", Encodings::none()), Some(3));
    // A `//` empty segment reports the *second* slash: a merge keeps the first,
    // so the stable prefix retains it.
    assert_eq!(at("/a//b", Encodings::none()), Some(3));
    assert_eq!(at("//a", Encodings::none()), Some(1));
    // A literal dot-segment reports its first dot.
    assert_eq!(at("/ab/../c", Encodings::none()), Some(4));
    // Multi-byte alternate forms report their first byte.
    let dd = Encodings {
        double_decode: true,
        ..Encodings::none()
    };
    assert_eq!(at("/ab%252fc", dd), Some(3));
    let ov = Encodings {
        overlong_slash: true,
        ..Encodings::none()
    };
    assert_eq!(at("/ab%c0%afc", ov), Some(3));
    let uni = Encodings {
        unicode: true,
        ..Encodings::none()
    };
    assert_eq!(at("/ab／c", uni), Some(3));
    // The earliest of several occurrences wins.
    assert_eq!(at("/a%2fb/../c", Encodings::none()), Some(2));
    // A clean path has no offset.
    assert_eq!(at("/clean/path", Encodings::none()), None);
}

#[test]
fn earliest_gated_by_enabled_classes() {
    // The class is still *flagged* (caller gating unchanged), but a disabled
    // class must not place the anchor.
    let no_back = union(&[SEPARATOR, DOT_SEGMENT, PARAM]);
    let s = scan("/a\\b", no_back, Encodings::none());
    assert!(s.classes.contains_any(BACKSLASH));
    assert_eq!(s.earliest, None);
    let s = scan("/a\\b", union(&[no_back, BACKSLASH]), Encodings::none());
    assert_eq!(s.earliest, Some(2));
}

#[test]
fn dot_pops_counts_capable_segments() {
    let pops = |path: &str| scan(path, all_enabled(), Encodings::none()).dot_pops;
    assert_eq!(pops("/a/b"), 0);
    assert_eq!(pops("/a/../b"), 1);
    assert_eq!(pops("/a/../../b"), 2);
    assert_eq!(pops("/./.."), 2); // `.` counts a full pop — conservative
    // An in-segment encoded dot counts one pop for its segment (conservative:
    // proving `a.b` cannot climb is the precise checks' job).
    assert_eq!(pops("/a%2eb/c"), 1);
    assert_eq!(pops("/%2e%2e/x"), 1); // one segment, one pop
    // Dot-segments revealed by encoded delimiters count per revealed segment.
    assert_eq!(pops("/a%2f..%2fb"), 1);
    assert_eq!(pops("/a/..;x/b"), 1);
    // In-segment literal dots are not dot-capable.
    assert_eq!(pops("/v1..2/a.b"), 0);
}

#[test]
fn overlong_forms_detected_only_when_enabled() {
    let on = Encodings {
        overlong_slash: true,
        overlong_dot: true,
        double_decode: false,
        unicode: false,
    };
    // %C0%AF = overlong '/', %C0%AE = overlong '.', plus 3-/4-byte forms.
    assert!(classes_present("/a%c0%afb", all_enabled(), on).contains_any(SEPARATOR));
    assert!(
        classes_present("/a%c0%aeb", all_enabled(), on).contains_any(DOT_SEGMENT)
    );
    assert!(
        classes_present("/a%e0%80%afb", all_enabled(), on).contains_any(SEPARATOR)
    );
    assert!(
        classes_present("/a%f0%80%80%afb", all_enabled(), on).contains_any(SEPARATOR)
    );
    // Disabled by default: a standards-conforming backend doesn't decode overlong.
    assert!(!present("/a%c0%afb").contains_any(SEPARATOR));
    assert!(!present("/a%c0%aeb").contains_any(DOT_SEGMENT));
}

#[test]
fn overlong_slash_and_dot_are_independent() {
    let slash_only = Encodings {
        overlong_slash: true,
        overlong_dot: false,
        double_decode: false,
        unicode: false,
    };
    assert!(
        classes_present("/a%c0%afb", all_enabled(), slash_only)
            .contains_any(SEPARATOR)
    );
    // dot scan off → overlong '.' not flagged
    assert!(
        !classes_present("/a%c0%aeb", all_enabled(), slash_only)
            .contains_any(DOT_SEGMENT)
    );
}

#[test]
fn double_encoded_forms_detected_only_when_enabled() {
    let on = Encodings {
        overlong_slash: false,
        overlong_dot: false,
        double_decode: true,
        unicode: false,
    };
    // %25 is a literal `%`; a second decode pass reveals the inner byte's class.
    assert!(classes_present("/a%252fb", all_enabled(), on).contains_any(SEPARATOR));
    assert!(classes_present("/a%252eb", all_enabled(), on).contains_any(DOT_SEGMENT));
    assert!(classes_present("/a%253bb", all_enabled(), on).contains_any(PARAM));
    assert!(classes_present("/a%255cb", all_enabled(), on).contains_any(BACKSLASH));
    assert!(classes_present("/a%2500b", all_enabled(), on).contains_any(TRUNCATION));
    // Disabled by default: a single backend pass leaves `%252f` as `%2f`.
    assert!(!present("/a%252fb").contains_any(SEPARATOR));
    // A plain single-encoded `%2f` is still detected without double_decode.
    assert!(present("/a%2fb").contains_any(SEPARATOR));
}

#[test]
fn unicode_confusables_detected_only_when_enabled() {
    let on = Encodings {
        overlong_slash: false,
        overlong_dot: false,
        double_decode: false,
        unicode: true,
    };
    // Raw fullwidth forms fold to their class.
    assert!(classes_present("/a／b", all_enabled(), on).contains_any(SEPARATOR));
    assert!(classes_present("/a．b", all_enabled(), on).contains_any(DOT_SEGMENT));
    assert!(classes_present("/a；b", all_enabled(), on).contains_any(PARAM));
    assert!(classes_present("/a＼b", all_enabled(), on).contains_any(BACKSLASH));
    // Percent-encoded fullwidth solidus (`%EF%BC%8F`) too.
    assert!(
        classes_present("/a%ef%bc%8fb", all_enabled(), on).contains_any(SEPARATOR)
    );
    // Disabled by default: a backend that doesn't normalize sees opaque bytes.
    assert!(!present("/a／b").contains_any(SEPARATOR));
    assert!(!present("/a%ef%bc%8fb").contains_any(SEPARATOR));
}

#[test]
fn dot_segment_revealed_through_fullwidth_separators() {
    let all = all_enabled();
    let uni = Encodings {
        overlong_slash: false,
        overlong_dot: false,
        double_decode: false,
        unicode: true,
    };
    // A literal `..` flanked by fullwidth solidi is a dot-segment once folded.
    assert!(has_dot_segment("/files/a／..／b", all, uni));
    assert!(has_dot_segment("/files/a%ef%bc%8f..%ef%bc%8fb", all, uni));
    // Not when the unicode encoding is off (the backend wouldn't fold it).
    assert!(!has_dot_segment("/files/a／..／b", all, Encodings::none()));
}

// ---- opt-in classes wired to config ----

#[test]
fn enabled_classes_default_is_the_quartet() {
        let e = enabled_classes(&StructuralClasses::new());
    assert!(e.contains_any(SEPARATOR));
    assert!(e.contains_any(DOT_SEGMENT));
    assert!(e.contains_any(PARAM));
    // NUL truncation is always-on: its legitimate-use rate is ~nil, so denying
    // it by default costs nothing while an undeclared C-string backend is a
    // silent truncation bypass.
    assert!(e.contains_any(TRUNCATION));
    // opt-in / separately-declared classes stay off
    assert!(!e.contains_any(CASE));
    assert!(!e.contains_any(BACKSLASH));
}

#[test]
fn opt_in_classes_enable_their_class() {
        // CASE is not derived from StructuralClasses (it comes from CaseSensitivity);
    // the backslash opt-in is.
    assert!(
        enabled_classes(&StructuralClasses::new().with_backslash())
            .contains_any(BACKSLASH)
    );
}

#[test]
fn probes_and_encodings_enable_no_extra_class() {
    
    struct Noop;
    impl StructuralProbe for Noop {
        fn name(&self) -> &'static str {
            "noop"
        }
        fn matches(&self, _path: &str) -> bool {
            false
        }
    }

    // The default set is exactly the quartet.
    let quartet =
        union(&[SEPARATOR, DOT_SEGMENT, PARAM, TRUNCATION]);
    assert_eq!(enabled_classes(&StructuralClasses::new()), quartet);
    // A probe is opaque to the class machinery (it acts via the break-glass scan)
    // and an encoding toggle changes recognised forms, not classes.
    assert_eq!(
        enabled_classes(
            &StructuralClasses::new()
                .with_probe(Noop)
                .with_overlong(&[StructuralChar::Slash])
        ),
        quartet
    );
}

#[test]
fn enabled_encodings_derived_from_config() {
    
    // Default set + UpToOne models no overlong / double-decoding backend.
    assert_eq!(
        enabled_encodings(&StructuralClasses::new(), DecodeDepth::UpToOne),
        Encodings::none()
    );

    let overlong = enabled_encodings(
        &StructuralClasses::new().with_overlong(&[StructuralChar::Slash]),
        DecodeDepth::UpToOne,
    );
    assert!(overlong.overlong_slash);
    assert!(!overlong.overlong_dot, "only slash was requested");
    assert!(!overlong.double_decode);

    // The double-percent scan comes from the DecodeDepth declaration alone.
    let up_to_two = enabled_encodings(&StructuralClasses::new(), DecodeDepth::UpToTwo);
    assert!(up_to_two.double_decode);
    assert!(!up_to_two.overlong_slash);
}

#[test]
fn primary_class_reports_most_consequential() {
        let all = all_enabled();
    assert_eq!(
        primary_class(union(&[DOT_SEGMENT, SEPARATOR])),
        StructuralClass::DotSegment
    );
    assert_eq!(
        primary_class(union(&[SEPARATOR, PARAM])),
        StructuralClass::Separator
    );
    assert_eq!(primary_class(CASE), StructuralClass::Uppercase);
    // A real scan: `..` flanked by encoded separators reports the dot-segment.
    assert_eq!(
        primary_class(classes_present("/a%2f..%2fb", all, Encodings::none())),
        StructuralClass::DotSegment
    );
}

#[test]
fn intersect_models_enabled_classes() {
    // With only the boundary-shift classes enabled, a live CASE bit does not
    // cause denial — gating is the caller's intersect against enabled_classes.
    let enabled = union(&[SEPARATOR, DOT_SEGMENT, PARAM]);
    let live = union(&[SEPARATOR, CASE]);
    let effective = live.intersect(enabled);
    assert!(effective.contains_any(SEPARATOR));
    assert!(!effective.contains_any(CASE));
}

fn enc_from_bits(b: u8) -> Encodings {
    Encodings {
        overlong_slash: b & 1 != 0,
        overlong_dot: b & 2 != 0,
        double_decode: b & 4 != 0,
        unicode: b & 8 != 0,
    }
}

fn set_from_bits(b: u8) -> ClassSet {
    ClassSet {
        separator: b & 1 != 0,
        dot_segment: b & 2 != 0,
        param: b & 4 != 0,
        case: b & 8 != 0,
        backslash: b & 16 != 0,
        truncation: b & 32 != 0,
    }
}

fn check_total(path: &str, enabled: ClassSet, enc: Encodings) {
    let s = scan(path, enabled, enc);
    assert_eq!(
        s.classes.intersect(enabled).is_empty(),
        s.earliest.is_none(),
        "earliest must exist exactly when an enabled class is present"
    );
    if let Some(at) = s.earliest {
        assert!(at < path.len(), "earliest offset out of bounds");
    }
    assert_eq!(
        s.dot_pops >= 1,
        s.classes.contains_any(DOT_SEGMENT),
        "dot_pops and the DOT class must agree"
    );
}

fn check_monotone(path: &str, e1: ClassSet, enc1: Encodings, e2: ClassSet, enc2: Encodings) {
    let s1 = scan(path, e1, enc1);
    let s2 = scan(path, e2, enc2);
    let p1 = s1.classes.intersect(e1);
    let p2 = s2.classes.intersect(e2);
    assert!(
        p1.intersect(p2) == p1,
        "monotonicity violated: {p1:?} not a subset of {p2:?}"
    );
    assert!(s2.earliest.unwrap_or(usize::MAX) <= s1.earliest.unwrap_or(usize::MAX));
    assert!(s2.dot_pops >= s1.dot_pops);
}

fn scan_all_ways(data: &[u8]) {
    let g = |i: usize| data.get(i).copied().unwrap_or(0);
    let e1 = set_from_bits(g(0));
    let e2 = set_from_bits(g(0) | g(1));
    let enc1 = enc_from_bits(g(2));
    let enc2 = enc_from_bits(g(2) | g(3));
    let path = String::from_utf8_lossy(data.get(4..).unwrap_or(&[]));
    check_total(&path, e1, enc1);
    check_monotone(&path, e1, enc1, e2, enc2);
}

/// A stream of pseudo-random numbers.
struct Stream(u64);

impl Stream {
    fn next(&mut self) -> u64 {
        self.0 = self.0.wrapping_add(0x9E37_79B9_7F4A_7C15);
        let mut z = self.0;
        z = (z ^ (z >> 30)).wrapping_mul(0xBF58_476D_1CE4_E5B9);
        z = (z ^ (z >> 27)).wrapping_mul(0x94D0_49BB_1331_11EB);
        z ^ (z >> 31)
    }

    fn below(&mut self, n: usize) -> usize {
        (self.next() % n as u64) as usize
    }
}

#[test]
fn scanner() {
    const SEEDS: &[&str] = &[
        "/a/../b",
        "/a%2f..%2fb",
        "/files/..%3bx/secret",
        "/;x=y/auth/",
        "/a\u{0}b",
        "/a%00b",
        "/a%c0%afb",
        "/a%252fb",
        "/a／b",
        "/Admin",
        "/admin/users",
    ];
    for seed in SEEDS {
        let mut data = vec![0x3f, 0x00, 0x0f, 0x00];
        data.extend_from_slice(seed.as_bytes());
        scan_all_ways(&data);
    }
    const BYTES: &[u8] = b"/.;\\%2eE3bB5cC0fF0aA\xef\xbc\x8f\x8e\x9b\xc0\xaf\xae\xe0\x80\xf0\0xZ";
    let mut stream = Stream(1);
    for _ in 0..20_000 {
        let len = 4 + stream.below(20);
        let mut data: Vec<u8> = Vec::new();
        for i in 0..len {
            if i < 4 {
                data.push(stream.next() as u8);
            } else {
                data.push(BYTES[stream.below(BYTES.len())]);
            }
        }
        scan_all_ways(&data);
    }
    const VOCAB: &[&str] = &[
        "a", "b", "admin", "..", ".", "a%2fb", "%2e%2e", "a;b", "..;x", "..%3bx", "a%5cb", "a%00b",
        "a%252fb", "a%c0%afb", "Abc",
    ];
    for _ in 0..20_000 {
        let mut path = String::new();
        for _ in 0..1 + stream.below(3) {
            path.push('/');
            path.push_str(VOCAB[stream.below(VOCAB.len())]);
        }
        let mut data: Vec<u8> = (0..4).map(|_| stream.next() as u8).collect();
        data.extend_from_slice(path.as_bytes());
        scan_all_ways(&data);
    }
}

#[test]
fn dot_segments_are_found_between_any_neighbours() {
    const FLOOR_TOKENS: &[&str] = &[
        "..",
        ".",
        "%2e%2e",
        "%2e",
        ".%2e",
        "..;x",
        "..%3bx",
        "..%3Bx",
        "a%2f..%2fb",
    ];
    const NEIGHBOURS: &[u8] = b"aZ9.;%";
    let trio = union(&[SEPARATOR, DOT_SEGMENT, PARAM]);
    let mut stream = Stream(2);
    let mut neighbour = |stream: &mut Stream| {
        (0..stream.below(5))
            .map(|_| char::from(NEIGHBOURS[stream.below(NEIGHBOURS.len())]))
            .collect::<String>()
    };
    for _ in 0..500 {
        for token in FLOOR_TOKENS {
            let lead = neighbour(&mut stream);
            let tail = neighbour(&mut stream);
            let path = format!("/{lead}/{token}/{tail}z");
            assert!(has_dot_segment(&path, trio, Encodings::none()), "{path}");
        }
    }
}
