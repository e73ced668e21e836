use huskarl_route_guard::path_confusion::{
    DenyReason, StructuralChar, StructuralClass, StructuralClasses, StructuralProbe,
};

#[test]
fn path_confusion_default_is_quartet_only() {
    // The always-on quartet lives in `enabled_classes`; the opt-in set is empty.
    let c = StructuralClasses::new();
    assert!(!c.backslash);
    assert!(!c.overlong_slash);
    assert!(!c.overlong_dot);
    assert!(!c.unicode);
    assert!(c.probes.is_empty());
}

#[test]
fn path_confusion_builders_toggle_their_field() {
    assert!(StructuralClasses::new().with_backslash().backslash);
    assert!(
        StructuralClasses::new()
            .with_unicode_normalization()
            .unicode
    );

    let both =
        StructuralClasses::new().with_overlong(&[StructuralChar::Slash, StructuralChar::Dot]);
    assert!(both.overlong_slash && both.overlong_dot);
    let slash_only = StructuralClasses::new().with_overlong(&[StructuralChar::Slash]);
    assert!(slash_only.overlong_slash && !slash_only.overlong_dot);
}

#[test]
fn path_confusion_deny_reason_messages_stay_static_and_coarse() {
    // The response-body string is deliberately coarse (no attribution leaks into
    // the response); the attributed detail lives in Display for logs.
    let d = DenyReason::StructuralForm(StructuralClass::Separator);
    assert_eq!(d.message(), "Ambiguous request path");
    assert!(d.to_string().contains("separator"));
    assert_eq!(
        DenyReason::CaseFoldRelocation.message(),
        "Ambiguous request path"
    );
    assert_eq!(
        DenyReason::DecodeRelocation.message(),
        "Ambiguous request path"
    );
    assert_eq!(DenyReason::Probe("p").message(), "Ambiguous request path");
    assert_eq!(
        DenyReason::NonCanonical(StructuralClass::DotSegment).message(),
        "Non-canonical request path"
    );
    assert_eq!(
        DenyReason::NonCanonicalEscape.message(),
        "Non-canonical request path"
    );
    assert_eq!(DenyReason::TooLong.message(), "Request path too long");
    assert_eq!(
        DenyReason::InvalidPathInput.message(),
        "Invalid request path"
    );
    // The probe's name reaches the log line.
    assert!(
        DenyReason::Probe("reject-non-ascii")
            .to_string()
            .contains("reject-non-ascii")
    );
}

#[test]
fn path_confusion_probe_registered_and_named() {
    struct P;
    impl StructuralProbe for P {
        fn name(&self) -> &'static str {
            "p"
        }
        fn matches(&self, path: &str) -> bool {
            path.contains('~')
        }
    }
    let c = StructuralClasses::new().with_probe(P);
    assert_eq!(c.probes.len(), 1);
    assert!(c.probes[0].matches("/a~b"));
    assert!(!c.probes[0].matches("/ab"));
    // probe does not flip any class field
    assert!(!c.backslash && !c.unicode);
}
