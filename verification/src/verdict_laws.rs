//! What the checks say of a path, told by its bytes and by what it selects.

use vstd::prelude::*;

use crate::agreement_laws;
use crate::anchor;
use crate::canonical_laws;
use crate::config::{CaseSensitivity, GuardConfig, GuardMode, ResolveError, StructuralProbe};
use crate::guard;
use crate::guard::{PathConfusionGuard, Verdict};
use crate::percent;
use crate::rewriting;

verus! {

broadcast use {
    rewriting::lemma_escaped,
    rewriting::lemma_decoded,
    rewriting::lemma_decoded_times,
};

/// Whether the path holds a complete escape.
pub open spec fn holds_escape(path: Seq<u8>) -> bool {
    exists|at: int, b: u8| rewriting::escapes(path, at, b)
}

/// Whether the path is canonical under the configuration: nothing structural but single
/// slashes, no escape, and no uppercase letter where case is folded.
pub open spec fn clean(path: Seq<u8>, config: GuardConfig) -> bool {
    &&& canonical_laws::plain(
        path,
        rewriting::declared(config).backslash,
        rewriting::declared(config).enc,
    )
    &&& !holds_escape(path)
    &&& config.case_sensitivity == CaseSensitivity::Insensitive ==> canonical_laws::uncapitalized(
        path,
    )
}

/// Whether no declared decode pass shows a structural form in the path.
pub open spec fn formless(path: Seq<u8>, config: GuardConfig) -> bool {
    canonical_laws::quiet(
        path,
        rewriting::passes(config),
        rewriting::declared(config).backslash,
        rewriting::declared(config).enc,
    )
}

proof fn lemma_holds_escape(path: Seq<u8>)
    ensures
        holds_escape(path) <==> percent::has_escape(path),
{
    if holds_escape(path) {
        let (at, b) = choose|at: int, b: u8| rewriting::escapes(path, at, b);
        rewriting::lemma_escapes(path, at, b);
        assert(percent::escape_at(path, at) is Some);
    }
    if percent::has_escape(path) {
        let at = choose|at: int| 0 <= at < path.len() && percent::escape_at(path, at) is Some;
        rewriting::lemma_escapes(path, at, percent::escape_at(path, at)->Some_0);
    }
}

/// Without an escape, quiet is plain.
proof fn lemma_quiet_plain(path: Seq<u8>, config: GuardConfig)
    requires
        !percent::has_escape(path),
    ensures
        formless(path, config) <==> canonical_laws::plain(
            path,
            rewriting::declared(config).backslash,
            rewriting::declared(config).enc,
        ),
        canonical_laws::quiet_case(path, rewriting::passes(config))
            <==> canonical_laws::uncapitalized(path),
{
    assert forall|n: nat| #[trigger] rewriting::decoded_times(path, n) == path by {
        agreement_laws::lemma_fixed(path, n);
    }
    assert(rewriting::decoded_times(path, 0) == path);
    lemma_holds_escape(path);
    assert forall|n: nat, at: int, b: u8| !(#[trigger] rewriting::escapes(
        rewriting::decoded_times(path, n),
        at,
        b,
    )) by {
        assert(rewriting::decoded_times(path, n) == path);
    }
}

/// The strict mode accepts exactly the canonical paths. Another one is too long, or has a
/// structural form or an uppercase letter that counts, or nothing but an escape against it.
pub proof fn strict_mode_is_exact(
    guard: PathConfusionGuard,
    config: GuardConfig,
    path: Seq<u8>,
    method: http::Method,
)
    requires
        guard.configured(config),
        config.mode == GuardMode::RequireCanonical,
        path.len() < usize::MAX,
    ensures
        guard.builtin_denial(path, method) is None <==> clean(path, config),
        guard.builtin_denial(path, method) == Some(ResolveError::TooLong) <==> !clean(path, config)
            && path.len() > config.max_path_len,
        guard.builtin_denial(path, method) == Some(ResolveError::NonCanonicalEscape) <==> {
            &&& !clean(path, config)
            &&& path.len() <= config.max_path_len
            &&& formless(path, config)
            &&& config.case_sensitivity == CaseSensitivity::Insensitive
                ==> canonical_laws::quiet_case(path, rewriting::passes(config))
        },
        guard.builtin_denial(path, method) matches Some(error) ==> error is TooLong
            || error is NonCanonicalEscape || error is NonCanonical,
{
    canonical_laws::survey_is_exact(path, guard.strict_lens());
    lemma_holds_escape(path);
    if !percent::has_escape(path) {
        lemma_quiet_plain(path, config);
    }
}

/// Whether lowercasing the path, and each declared number of decode passes, leave what it
/// selects. Where case is folded, a decode result counts both as it is and lowercased.
pub open spec fn keeps_its_rule(
    guard: PathConfusionGuard,
    config: GuardConfig,
    path: Seq<u8>,
    method: http::Method,
) -> bool {
    &&& forall|n: nat|
        n <= rewriting::passes(config) ==> guard.raw(
            #[trigger] rewriting::decoded_times(path, n),
            method,
        ) == guard.raw(path, method)
    &&& config.case_sensitivity == CaseSensitivity::Insensitive ==> forall|n: nat|
        n <= rewriting::passes(config) ==> guard.raw(
            rewriting::lowercase(#[trigger] rewriting::decoded_times(path, n)),
            method,
        ) == guard.raw(path, method)
}

/// Where no structural form shows, the default mode accepts a path exactly where it keeps its
/// rule, and says which comparison failed. Paths over the length limit are denied as soon as
/// they hold a `%`, or an uppercase letter where case is folded.
pub proof fn comparisons_are_exact(
    guard: PathConfusionGuard,
    config: GuardConfig,
    path: Seq<u8>,
    method: http::Method,
)
    requires
        guard.configured(config),
        config.mode == GuardMode::RejectAmbiguous,
        path.len() < usize::MAX,
        formless(path, config),
    ensures
        path.len() <= config.max_path_len ==> {
            &&& guard.builtin_denial(path, method) is None <==> keeps_its_rule(
                guard,
                config,
                path,
                method,
            )
            &&& guard.builtin_denial(path, method) == Some(ResolveError::CaseFoldRuleChange) <==> {
                &&& config.case_sensitivity == CaseSensitivity::Insensitive
                &&& guard.raw(rewriting::lowercase(path), method) != guard.raw(path, method)
            }
            &&& guard.builtin_denial(path, method) matches Some(error) ==> error
                == ResolveError::CaseFoldRuleChange || error == ResolveError::DecodeRuleChange
        },
        path.len() > config.max_path_len ==> guard.builtin_denial(path, method) == if path.contains(
            '%' as u8,
        ) || (config.case_sensitivity == CaseSensitivity::Insensitive
            && !canonical_laws::uncapitalized(path)) {
            Some(ResolveError::TooLong)
        } else {
            None
        },
{
    canonical_laws::survey_is_exact(path, guard.lens());
    assert(guard.structural_denial(path, method) is None);
    rewriting::lemma_lowercase(path);
    let once = percent::decode_times(path, 1);
    let twice = percent::decode_times(path, 2);
    rewriting::lemma_lowercase(once);
    rewriting::lemma_lowercase(twice);
    assert(rewriting::decoded_times(path, 0) == path);
    assert(rewriting::decoded_times(path, 1) == once);
    assert(rewriting::decoded_times(path, 2) == twice);
    if !path.contains(0x25) {
        agreement_laws::lemma_no_percent(path, 1);
        agreement_laws::lemma_no_percent(path, 2);
    }
    if !anchor::has_upper(path) {
        assert(anchor::folded(path) =~= path);
        assert(canonical_laws::uncapitalized(path));
    } else {
        assert(!canonical_laws::uncapitalized(path));
    }
    let kept = guard.raw(path, method);
    if keeps_its_rule(guard, config, path, method) {
        assert(guard.raw(rewriting::decoded_times(path, 0), method) == kept);
        assert(guard.raw(rewriting::decoded_times(path, 1), method) == kept);
        assert(guard.enc.double_decode ==> guard.raw(rewriting::decoded_times(path, 2), method)
            == kept);
    }
    if guard.builtin_denial(path, method) is None && path.len() <= config.max_path_len {
        assert forall|n: nat| n <= rewriting::passes(config) implies guard.raw(
            #[trigger] rewriting::decoded_times(path, n),
            method,
        ) == kept by {
            assert(n == 0 || n == 1 || n == 2);
        }
        if guard.case_insensitive {
            assert forall|n: nat| n <= rewriting::passes(config) implies guard.raw(
                rewriting::lowercase(#[trigger] rewriting::decoded_times(path, n)),
                method,
            ) == kept by {
                assert(n == 0 || n == 1 || n == 2);
            }
        }
    }
}

/// Without probes, a canonical path passes every mode, so a request for it gets what the path
/// selects. Over the length limit that holds in the default mode of a path without a `%`.
pub proof fn canonical_paths_pass(
    guard: PathConfusionGuard,
    config: GuardConfig,
    path: Seq<char>,
    method: http::Method,
)
    requires
        guard.configured(config),
        config.structural_classes.probes@.len() == 0,
        vstd::utf8::encode_utf8(path).len() < usize::MAX,
        clean(vstd::utf8::encode_utf8(path), config),
        config.mode == GuardMode::RejectAmbiguous ==> vstd::utf8::encode_utf8(path).len()
            <= config.max_path_len || !vstd::utf8::encode_utf8(path).contains('%' as u8),
    ensures
        guard.verdict(path, method) == Verdict::Pass,
{
    let bytes = vstd::utf8::encode_utf8(path);
    lemma_holds_escape(bytes);
    lemma_quiet_plain(bytes, config);
    if config.mode == GuardMode::RequireCanonical {
        strict_mode_is_exact(guard, config, bytes, method);
    } else if config.mode == GuardMode::RejectAmbiguous {
        comparisons_are_exact(guard, config, bytes, method);
        assert forall|n: nat| #[trigger] rewriting::decoded_times(bytes, n) == bytes by {
            agreement_laws::lemma_fixed(bytes, n);
        }
        if config.case_sensitivity == CaseSensitivity::Insensitive {
            assert(rewriting::lowercase(bytes) =~= bytes);
        }
        assert(keeps_its_rule(guard, config, bytes, method));
    }
    if config.mode != GuardMode::Disabled {
        probes_come_last(guard, config, path, method);
    }
}

/// Whether some declared number of decode passes, none among them, shows a NUL.
pub open spec fn shows_nul(path: Seq<u8>, config: GuardConfig) -> bool {
    exists|n: nat|
        n <= rewriting::passes(config) && (#[trigger] rewriting::decoded_times(path, n)).contains(0)
}

/// Where a structural form shows, the default mode denies an over-long path as such, and
/// accepts another one exactly where there is no NUL and every outcome of the region behind
/// the anchor is what the path selects.
pub proof fn structural_check_is_exact(
    guard: PathConfusionGuard,
    config: GuardConfig,
    path: Seq<u8>,
    method: http::Method,
)
    requires
        guard.configured(config),
        config.mode == GuardMode::RejectAmbiguous,
        0 < path.len() < usize::MAX,
        path[0] == '/' as u8,
        !formless(path, config),
    ensures
        guard.builtin_denial(path, method) == Some(ResolveError::TooLong) <==> path.len()
            > config.max_path_len,
        guard.builtin_denial(path, method) is None <==> {
            &&& path.len() <= config.max_path_len
            &&& !shows_nul(path, config)
            &&& forall|outcome: crate::diagnostics::RawMatch| #[trigger]
                guard.reachable(path, method).contains(outcome) ==> outcome == guard.raw(
                    path,
                    method,
                )
        },
        guard.builtin_denial(path, method) matches Some(error) ==> error is TooLong
            || error is StructuralForm,
{
    canonical_laws::survey_is_exact(path, guard.lens());
    canonical_laws::nul_is_exact(path, guard.lens());
    if guard.structural_denial(path, method) is None {
        agreement_laws::uniform_coverage_settles_comparisons(guard, config, path, method);
    }
}

/// A path has an anchor to speak of exactly where a structural form shows, none of them a NUL,
/// and the path is not over the length limit.
pub proof fn anchored_paths_are_exact(guard: PathConfusionGuard, config: GuardConfig, path: Seq<u8>)
    requires
        guard.configured(config),
        path.len() < usize::MAX,
    ensures
        guard.anchors(path) <==> !formless(path, config) && !shows_nul(path, config) && path.len()
            <= config.max_path_len,
{
    canonical_laws::survey_is_exact(path, guard.lens());
    canonical_laws::nul_is_exact(path, guard.lens());
}

/// A disabled guard runs no check.
pub proof fn disabled_mode_is_exact(
    guard: PathConfusionGuard,
    config: GuardConfig,
    path: Seq<char>,
    method: http::Method,
)
    requires
        guard.configured(config),
        config.mode == GuardMode::Disabled,
    ensures
        guard.verdict(path, method) == Verdict::Pass,
{
}

/// The built-in checks come first; after them the probes are asked in order, about a path that
/// is not over the length limit. The first that detects its form denies, by its name.
pub proof fn probes_come_last(
    guard: PathConfusionGuard,
    config: GuardConfig,
    path: Seq<char>,
    method: http::Method,
)
    requires
        guard.configured(config),
        config.mode != GuardMode::Disabled,
    ensures
        match guard.builtin_denial(vstd::utf8::encode_utf8(path), method) {
            Some(error) => guard.verdict(path, method) == Verdict::Deny(error),
            None => {
                let probes = config.structural_classes.probes@;
                if probes.len() == 0 {
                    guard.verdict(path, method) == Verdict::Pass
                } else if vstd::utf8::encode_utf8(path).len() > config.max_path_len {
                    guard.verdict(path, method) == Verdict::Deny(ResolveError::TooLong)
                } else {
                    ||| exists|i: int|
                        0 <= i < probes.len() && (#[trigger] probes[i]).detects(path) && (forall|
                            j: int,
                        |
                            0 <= j < i ==> !(#[trigger] probes[j]).detects(path))
                            && guard.verdict(path, method) == Verdict::Probe(probes[i].label())
                    ||| (forall|j: int| 0 <= j < probes.len() ==> !(#[trigger] probes[j]).detects(
                        path,
                    )) && guard.verdict(path, method) == Verdict::Pass
                }
            },
        },
{
    lemma_first_match(guard.probes@, path);
    let probes = config.structural_classes.probes@;
    if let Some(i) = guard::first_match(probes, path) {
        assert(probes[i].detects(path));
    }
}

proof fn lemma_first_match(probes: Seq<std::sync::Arc<Box<dyn StructuralProbe>>>, path: Seq<char>)
    ensures
        match guard::first_match(probes, path) {
            Some(i) => {
                &&& 0 <= i < probes.len()
                &&& probes[i].detects(path)
                &&& forall|j: int| 0 <= j < i ==> !(#[trigger] probes[j]).detects(path)
            },
            None => forall|j: int| 0 <= j < probes.len() ==> !(#[trigger] probes[j]).detects(path),
        },
    decreases probes.len(),
{
    if probes.len() > 0 {
        let less = probes.drop_last();
        lemma_first_match(less, path);
        assert(forall|j: int| 0 <= j < less.len() ==> less[j] == #[trigger] probes[j]);
    }
}

} // verus!
