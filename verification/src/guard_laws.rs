//! What holds between configurations, and of every path under one.

use vstd::prelude::*;

use crate::agreement_laws;
use crate::anchor;
use crate::config::{CaseSensitivity, DecodeDepth, GuardConfig, GuardMode, StructuralClass};
use crate::coverage;
use crate::guard;
use crate::guard::{PathConfusionGuard, Verdict};
use crate::percent;
use crate::rewriting;
use crate::rewriting::Move;
use crate::routing;
use crate::routing::Slots;
use crate::scan_laws;
use crate::structural;
use crate::structural::Lens;

verus! {

/// The path up to a place behind a slash; the root for no place.
spec fn cut(s: Seq<u8>, end: int) -> Seq<u8> {
    if end == 0 {
        anchor::root()
    } else {
        s.take(end)
    }
}

/// Whether the path can be cut there.
spec fn cuttable(s: Seq<u8>, end: int) -> bool {
    end == 0 || rewriting::after_slash(s, end)
}

/// Where the path up to the last slash before a bound ends.
proof fn lemma_through_cut(s: Seq<u8>, b: int) -> (end: int)
    requires
        0 <= b <= s.len(),
    ensures
        anchor::through_slash(s.take(b)) == cut(s, end),
        cuttable(s, end),
        0 <= end <= b,
        forall|i: int| end <= i < b ==> #[trigger] s[i] != 0x2F,
    decreases b,
{
    let t = s.take(b);
    if b == 0 {
        0
    } else {
        assert(t.last() == s[b - 1]);
        if s[b - 1] == 0x2F {
            b
        } else {
            assert(t.drop_last() =~= s.take(b - 1));
            lemma_through_cut(s, b - 1)
        }
    }
}

/// Raising cuts no later.
proof fn lemma_raised_cut(s: Seq<u8>, x: int, k: nat) -> (end: int)
    requires
        cuttable(s, x),
    ensures
        anchor::raised(cut(s, x), k) == cut(s, end),
        cuttable(s, end),
        end <= x,
    decreases k,
{
    if k == 0 || cut(s, x) == anchor::root() {
        x
    } else {
        assert(s.take(x).drop_last() =~= s.take(x - 1));
        let u = lemma_through_cut(s, x - 1);
        lemma_raised_cut(s, u, (k - 1) as nat)
    }
}

/// Of two cuts, the earlier one stays the earlier one when both are raised, the earlier one at
/// least as often.
proof fn lemma_raised_order(s: Seq<u8>, x: int, y: int, k: nat, j: nat) -> (ends: (int, int))
    requires
        cuttable(s, x),
        cuttable(s, y),
        x <= y,
        j <= k,
    ensures
        anchor::raised(cut(s, x), k) == cut(s, ends.0),
        anchor::raised(cut(s, y), j) == cut(s, ends.1),
        cuttable(s, ends.0),
        cuttable(s, ends.1),
        0 <= ends.0 <= ends.1,
    decreases k,
{
    if cut(s, x) == anchor::root() {
        (0, lemma_raised_cut(s, y, j))
    } else if j == 0 {
        (lemma_raised_cut(s, x, k), y)
    } else {
        assert(cut(s, y) != anchor::root()) by {
            if y == 1 {
                assert(x == 1);
            }
            assert(s.take(y).len() == y);
        }
        assert(s.take(x).drop_last() =~= s.take(x - 1));
        assert(s.take(y).drop_last() =~= s.take(y - 1));
        let u = lemma_through_cut(s, x - 1);
        let v = lemma_through_cut(s, y - 1);
        if v < u {
            assert(s[u - 1] != 0x2F);
        }
        lemma_raised_order(s, u, v, (k - 1) as nat, (j - 1) as nat)
    }
}

/// Segments up to a slash, then the rest.
pub proof fn lemma_segments_split(u: Seq<u8>, t: Seq<u8>)
    requires
        u.len() > 0 ==> u.last() == 0x2F,
    ensures
        routing::anchor_segments(u + t) == routing::anchor_segments(u) + routing::anchor_segments(
            t,
        ),
    decreases u.len(),
{
    if u.len() == 0 {
        assert(u + t =~= t);
    } else {
        let s = u + t;
        routing::lemma_next_slash(u, 0);
        routing::lemma_next_slash(s, 0);
        let k = routing::next_slash(u, 0);
        if k == u.len() {
            assert(u[u.len() - 1] != 0x2F);
        }
        assert(forall|j: int| 0 <= j < u.len() ==> s[j] == u[j]);
        assert(routing::next_slash(s, 0) == k) by {
            let m = routing::next_slash(s, 0);
            if m < k {
                assert(u[m] != 0x2F);
            }
            if m > k {
                assert(s[k] != 0x2F);
            }
        }
        assert(routing::head(s) =~= routing::head(u));
        assert(routing::rest(s) =~= routing::rest(u) + t);
        let rest = routing::rest(u);
        if rest.len() > 0 {
            assert(rest.last() == u.last());
        }
        lemma_segments_split(rest, t);
        assert(routing::anchor_segments(s) =~= routing::anchor_segments(u)
            + routing::anchor_segments(t));
    }
}

/// More segments, no more outcomes.
pub proof fn lemma_fewer_outcomes(
    slots: Slots,
    segs: Seq<Seq<u8>>,
    more: Seq<Seq<u8>>,
    method: http::Method,
)
    ensures
        routing::anchored(slots, segs + more, method).subset_of(
            routing::anchored(slots, segs, method),
        ),
    decreases more.len(),
{
    if more.len() == 0 {
        assert(segs + more =~= segs);
    } else {
        lemma_fewer_outcomes(slots, segs, more.drop_last(), method);
        coverage::longer_anchors_have_fewer_outcomes(
            slots,
            segs + more.drop_last(),
            more.last(),
            method,
        );
        assert((segs + more.drop_last()).push(more.last()) =~= segs + more);
    }
}

/// How strict a mode is.
pub open spec fn rank(mode: GuardMode) -> int {
    match mode {
        GuardMode::Disabled => 0,
        GuardMode::RejectAmbiguous => 1,
        GuardMode::RequireCanonical => 2,
    }
}

/// Whether the second guard looks for all that the first one looks for, in a mode that is no
/// less strict, and analyzes no longer paths.
pub open spec fn as_strict(a: PathConfusionGuard, b: PathConfusionGuard) -> bool {
    &&& a.router.slots() == b.router.slots()
    &&& rank(a.mode) <= rank(b.mode)
    &&& a.case_insensitive ==> b.case_insensitive
    &&& scan_laws::narrower(a.strict_lens(), b.strict_lens())
    &&& b.max_path_len <= a.max_path_len
    &&& a.probes@.is_prefix_of(b.probes@)
}

/// Whether the second configuration declares all that the first one declares: more parsing
/// behaviors, more probes, a mode that is no less strict, and no higher length limit.
pub open spec fn declares_more(a: GuardConfig, b: GuardConfig) -> bool {
    let x = a.structural_classes;
    let y = b.structural_classes;
    &&& rank(a.mode) <= rank(b.mode)
    &&& a.case_sensitivity == CaseSensitivity::Insensitive ==> b.case_sensitivity
        == CaseSensitivity::Insensitive
    &&& a.decode_depth == DecodeDepth::UpToTwo ==> b.decode_depth == DecodeDepth::UpToTwo
    &&& x.backslash ==> y.backslash
    &&& x.overlong_slash ==> y.overlong_slash
    &&& x.overlong_dot ==> y.overlong_dot
    &&& x.unicode ==> y.unicode
    &&& x.probes@.is_prefix_of(y.probes@)
    &&& b.max_path_len <= a.max_path_len
}

/// A guard that declares more is as strict.
pub proof fn lemma_declared_strictness(
    a: PathConfusionGuard,
    b: PathConfusionGuard,
    c: GuardConfig,
    d: GuardConfig,
)
    requires
        a.router.slots() == b.router.slots(),
        a.configured(c),
        b.configured(d),
        declares_more(c, d),
    ensures
        as_strict(a, b),
{
}

/// Whether the path is that of a request: it begins with a slash, or it stands for the
/// server as a whole.
pub open spec fn is_target(path: Seq<u8>) -> bool {
    (path.len() > 0 && path[0] == 0x2F) || path == seq![0x2Au8]
}

/// A set is no larger under fewer settings.
proof fn lemma_void_below(path: Seq<u8>, l: Lens, m: Lens)
    requires
        path.len() < usize::MAX,
        scan_laws::narrower(l, m),
        structural::survey(path, m).classes.meet(m.enabled).is_void(),
    ensures
        structural::survey(path, l).classes.meet(l.enabled).is_void(),
{
    scan_laws::every_path_has_a_survey(path, l);
    scan_laws::every_path_has_a_survey(path, m);
    let r = structural::survey(path, l);
    let q = structural::survey(path, m);
    scan_laws::scan_is_monotone(path, l, m, r, q);
    assert forall|class: StructuralClass| !(#[trigger] r.classes.meet(l.enabled).has(class)) by {
        assert(!q.classes.meet(m.enabled).has(class));
        if r.classes.meet(l.enabled).has(class) {
            assert(l.enabled.has(class) && r.classes.has(class));
            assert(m.enabled.has(class) && q.classes.has(class));
        }
    }
}

/// The anchor of the stricter guard is no longer.
proof fn lemma_anchor_below(a: PathConfusionGuard, b: PathConfusionGuard, path: Seq<u8>) -> (ends: (
    int,
    int,
))
    requires
        a.case_insensitive ==> b.case_insensitive,
        scan_laws::narrower(a.lens(), b.lens()),
        path.len() < usize::MAX,
        !a.flagged(path).is_void(),
    ensures
        b.anchor(path) == cut(path, ends.0),
        a.anchor(path) == cut(path, ends.1),
        cuttable(path, ends.0),
        cuttable(path, ends.1),
        0 <= ends.0 <= ends.1,
{
    let l = a.lens();
    let m = b.lens();
    let r = structural::survey(path, l);
    let q = structural::survey(path, m);
    scan_laws::every_path_has_a_survey(path, l);
    scan_laws::every_path_has_a_survey(path, m);
    scan_laws::scan_is_monotone(path, l, m, r, q);
    guard::lemma_flagged_offset(path, l);
    anchor::lemma_content_from(path, a.case_insensitive, 0);
    anchor::lemma_content_from(path, b.case_insensitive, 0);
    let x = anchor::bound(path, b.case_insensitive, q.earliest->Some_0 as int);
    let y = anchor::bound(path, a.case_insensitive, r.earliest->Some_0 as int);
    assert(x <= y) by {
        let c = anchor::content_from(path, a.case_insensitive, 0);
        if c < anchor::content_from(path, b.case_insensitive, 0) {
            assert(!anchor::rewritable(path[c], b.case_insensitive));
        }
    }
    let u = lemma_through_cut(path, x);
    let v = lemma_through_cut(path, y);
    assert(u <= v) by {
        if v < u {
            assert(path[u - 1] != 0x2F);
        }
    }
    lemma_raised_order(path, u, v, q.dot_pops as nat, r.dot_pops as nat)
}

/// The anchor of the stricter guard is no longer, so the outcomes past it are no fewer.
proof fn lemma_region_below(
    a: PathConfusionGuard,
    b: PathConfusionGuard,
    path: Seq<u8>,
    method: http::Method,
)
    requires
        a.router.slots() == b.router.slots(),
        a.case_insensitive ==> b.case_insensitive,
        scan_laws::narrower(a.lens(), b.lens()),
        path.len() < usize::MAX,
        !a.flagged(path).is_void(),
    ensures
        a.reachable(path, method).subset_of(b.reachable(path, method)),
{
    let (end, other) = lemma_anchor_below(a, b, path);
    let short = cut(path, end);
    let more = if end == 0 {
        cut(path, other)
    } else {
        path.subrange(end, other)
    };
    assert(routing::anchor_segments(cut(path, other)) == routing::anchor_segments(short)
        + routing::anchor_segments(more)) by {
        if end == 0 {
            reveal_with_fuel(routing::anchor_segments, 2);
            assert(routing::head(short).len() == 0);
            assert(routing::anchor_segments(short) =~= Seq::empty());
            assert(Seq::<Seq<u8>>::empty() + routing::anchor_segments(more)
                =~= routing::anchor_segments(more));
        } else {
            assert(path.take(other) =~= short + more);
            assert(short.last() == path[end - 1]);
            lemma_segments_split(short, more);
        }
    }
    lemma_fewer_outcomes(
        a.router.slots(),
        routing::anchor_segments(short),
        routing::anchor_segments(more),
        method,
    );
}

/// The positional check of the stricter guard denies at least what the other's denies.
proof fn lemma_structural_below(
    a: PathConfusionGuard,
    b: PathConfusionGuard,
    path: Seq<u8>,
    method: http::Method,
)
    requires
        a.router.slots() == b.router.slots(),
        a.case_insensitive ==> b.case_insensitive,
        scan_laws::narrower(a.lens(), b.lens()),
        b.max_path_len <= a.max_path_len,
        path.len() < usize::MAX,
        b.structural_denial(path, method) is None,
    ensures
        a.structural_denial(path, method) is None,
{
    if b.flagged(path).is_void() {
        lemma_void_below(path, a.lens(), b.lens());
    } else if !a.flagged(path).is_void() {
        let l = a.lens();
        let m = b.lens();
        scan_laws::every_path_has_a_survey(path, l);
        scan_laws::every_path_has_a_survey(path, m);
        scan_laws::scan_is_monotone(
            path,
            l,
            m,
            structural::survey(path, l),
            structural::survey(path, m),
        );
        if a.flagged(path).truncation {
            assert(structural::survey(path, l).classes.has(StructuralClass::NulTruncation));
            assert(l.enabled.has(StructuralClass::NulTruncation));
        }
        lemma_region_below(a, b, path, method);
    }
}

/// The built-in checks of the stricter guard deny at least what the other's deny, in the same
/// mode.
proof fn lemma_builtin_below(
    a: PathConfusionGuard,
    b: PathConfusionGuard,
    path: Seq<u8>,
    method: http::Method,
)
    requires
        as_strict(a, b),
        a.mode == b.mode,
        path.len() < usize::MAX,
        b.builtin_denial(path, method) is None,
    ensures
        a.builtin_denial(path, method) is None,
{
    assert(scan_laws::narrower(a.lens(), b.lens())) by {
        assert forall|class: StructuralClass| #[trigger] a.lens().enabled.has(
            class,
        ) implies b.lens().enabled.has(class) by {
            assert(a.strict_lens().enabled.has(class));
            assert(b.strict_lens().enabled.has(class));
        }
    }
    match a.mode {
        GuardMode::Disabled => {},
        GuardMode::RequireCanonical => {
            lemma_void_below(path, a.strict_lens(), b.strict_lens());
        },
        GuardMode::RejectAmbiguous => {
            lemma_structural_below(a, b, path, method);
        },
    }
}

/// The first match among more probes comes where there is one among fewer.
proof fn lemma_more_probes(a: PathConfusionGuard, b: PathConfusionGuard, path: Seq<char>, n: int)
    requires
        a.probes@.is_prefix_of(b.probes@),
        a.probes@.len() <= n <= b.probes@.len(),
        guard::first_match(a.probes@, path) is Some,
    ensures
        guard::first_match(b.probes@.take(n), path) is Some,
    decreases n,
{
    if n == a.probes@.len() {
        assert(b.probes@.take(n) =~= a.probes@);
    } else {
        lemma_more_probes(a, b, path, n - 1);
        assert(b.probes@.take(n).drop_last() =~= b.probes@.take(n - 1));
    }
}

/// Whether the path is canonical to the guard: no enabled structural form, uppercase
/// letters among them where case is folded, and no percent escape.
pub open spec fn canonical(guard: PathConfusionGuard, path: Seq<u8>) -> bool {
    &&& structural::survey(path, guard.strict_lens()).classes.meet(guard.enabled).is_void()
    &&& !percent::has_escape(path)
}

/// A canonical path has no letter to fold.
proof fn lemma_canonical_case(guard: PathConfusionGuard, path: Seq<u8>)
    requires
        path.len() < usize::MAX,
        canonical(guard, path),
        guard.enabled.case,
    ensures
        !anchor::has_upper(path),
        anchor::folded(path) == path,
{
    let l = guard.strict_lens();
    let found = structural::survey(path, l);
    scan_laws::every_path_has_a_survey(path, l);
    if anchor::has_upper(path) {
        let s = structural::scene(path, 0);
        let i = choose|i: int| 0 <= i < path.len() && 0x41 <= #[trigger] path[i] <= 0x5A;
        agreement_laws::lemma_starts(s.bytes, l.enc, i);
        assert(structural::class_at(s, l.enc, i) == Some(StructuralClass::Uppercase));
        assert(structural::carries(s, l, StructuralClass::Uppercase));
        assert(found.classes.has(StructuralClass::Uppercase));
        assert(found.classes.meet(guard.enabled).has(StructuralClass::Uppercase));
    }
    assert(anchor::folded(path) =~= path);
}

/// Whether the path is over the length limit and holds a `%`. The default mode, which would
/// have to decode it, denies it, even where the `%` is part of no escape and the path is
/// canonical.
pub open spec fn too_long_to_decode(guard: PathConfusionGuard, path: Seq<u8>) -> bool {
    &&& guard.mode == GuardMode::RejectAmbiguous
    &&& path.len() > guard.max_path_len
    &&& path.contains(0x25)
}

/// Whether the length of the path sets the modes apart: the default mode denies it for the
/// sake of a `%` that is part of no escape, and to the strict mode, which has no probe to ask
/// about it, it is canonical.
pub open spec fn set_apart_by_length(
    a: PathConfusionGuard,
    b: PathConfusionGuard,
    path: Seq<u8>,
) -> bool {
    &&& too_long_to_decode(a, path)
    &&& b.mode == GuardMode::RequireCanonical
    &&& b.probes@.len() == 0
    &&& canonical(b, path)
}

/// Canonical paths pass the built-in checks of every mode, whatever the routes, unless they
/// are too long to decode.
pub proof fn canonical_paths_pass(
    guard: PathConfusionGuard,
    config: GuardConfig,
    path: Seq<u8>,
    method: http::Method,
)
    requires
        guard.configured(config),
        path.len() < usize::MAX,
        canonical(guard, path),
        !too_long_to_decode(guard, path),
    ensures
        guard.builtin_denial(path, method) is None,
{
    if guard.mode == GuardMode::RejectAmbiguous {
        assert(scan_laws::narrower(guard.lens(), guard.strict_lens()));
        lemma_void_below(path, guard.lens(), guard.strict_lens());
        if guard.case_insensitive {
            lemma_canonical_case(guard, path);
        }
        agreement_laws::lemma_fixed(path, 1);
        agreement_laws::lemma_fixed(path, 2);
    }
}

/// The strict mode only adds denials: what the default mode denies, it denies too, unless the
/// length of the path sets them apart.
pub proof fn strict_mode_only_adds_denials(
    a: PathConfusionGuard,
    b: PathConfusionGuard,
    config: GuardConfig,
    path: Seq<char>,
    method: http::Method,
)
    requires
        a.configured(config),
        a.mode == GuardMode::RejectAmbiguous,
        b == (PathConfusionGuard { mode: GuardMode::RequireCanonical, ..a }),
        vstd::utf8::encode_utf8(path).len() < usize::MAX,
        !set_apart_by_length(a, b, vstd::utf8::encode_utf8(path)),
        a.verdict(path, method) != Verdict::Pass,
    ensures
        b.verdict(path, method) != Verdict::Pass,
{
    let bytes = vstd::utf8::encode_utf8(path);
    if b.verdict(path, method) == Verdict::Pass {
        canonical_paths_pass(a, config, bytes, method);
    }
}

/// The built-in checks of the stricter guard deny at least what the other's deny.
proof fn lemma_builtin_order(
    a: PathConfusionGuard,
    b: PathConfusionGuard,
    config: GuardConfig,
    path: Seq<u8>,
    method: http::Method,
)
    requires
        as_strict(a, b),
        b.configured(config),
        path.len() < usize::MAX,
        too_long_to_decode(a, path) ==> b.mode != GuardMode::RequireCanonical,
        b.builtin_denial(path, method) is None,
    ensures
        a.builtin_denial(path, method) is None,
{
    if a.mode == b.mode {
        lemma_builtin_below(a, b, path, method);
    } else if a.mode == GuardMode::RejectAmbiguous {
        let same = PathConfusionGuard { mode: a.mode, max_path_len: a.max_path_len, ..b };
        let settings = GuardConfig { mode: a.mode, max_path_len: a.max_path_len, ..config };
        canonical_paths_pass(same, settings, path, method);
        lemma_builtin_below(a, same, path, method);
    }
}

/// Stricter settings only add denials. Where a guard denies a path, so does every guard over
/// the same routes that looks for more classes, more encodings or more decode passes, folds
/// case, asks more probes, analyzes no longer paths, or is in a stricter mode, in any
/// combination, unless the length of the path sets the modes apart.
pub proof fn stricter_settings_only_add_denials(
    a: PathConfusionGuard,
    b: PathConfusionGuard,
    config: GuardConfig,
    path: Seq<char>,
    method: http::Method,
)
    requires
        as_strict(a, b),
        b.configured(config),
        vstd::utf8::encode_utf8(path).len() < usize::MAX,
        !set_apart_by_length(a, b, vstd::utf8::encode_utf8(path)),
        a.verdict(path, method) != Verdict::Pass,
    ensures
        b.verdict(path, method) != Verdict::Pass,
{
    let bytes = vstd::utf8::encode_utf8(path);
    if b.verdict(path, method) == Verdict::Pass {
        lemma_builtin_order(a, b, config, bytes, method);
        if guard::first_match(a.probes@, path) is Some {
            lemma_more_probes(a, b, path, b.probes@.len() as int);
            assert(b.probes@.take(b.probes@.len() as int) =~= b.probes@);
        }
    }
}

/// Declaring that case is folded only adds denials.
pub proof fn case_folding_only_adds_denials(
    a: PathConfusionGuard,
    b: PathConfusionGuard,
    config: GuardConfig,
    path: Seq<char>,
    method: http::Method,
)
    requires
        a.configured(config),
        b == (PathConfusionGuard {
            case_insensitive: true,
            enabled: structural::ClassSet { case: true, ..a.enabled },
            ..a
        }),
        vstd::utf8::encode_utf8(path).len() < usize::MAX,
        a.verdict(path, method) != Verdict::Pass,
    ensures
        b.verdict(path, method) != Verdict::Pass,
{
    let folding = GuardConfig { case_sensitivity: CaseSensitivity::Insensitive, ..config };
    stricter_settings_only_add_denials(a, b, folding, path, method);
}

/// Overstating what a backend does is safe. Where a guard accepts a request, every path that
/// a backend can make of it selects what the path selects as received, also where the backend
/// does less than is declared: it decodes less often, recognizes less, or folds no case.
pub proof fn overstatement_keeps_the_rule(
    a: PathConfusionGuard,
    b: PathConfusionGuard,
    actual: GuardConfig,
    config: GuardConfig,
    path: Seq<u8>,
    method: http::Method,
    moves: Seq<Move>,
)
    requires
        a.configured(actual),
        b.configured(config),
        as_strict(a, b),
        a.mode != GuardMode::Disabled,
        0 < path.len() < usize::MAX,
        is_target(path),
        b.builtin_denial(path, method) is None,
        rewriting::after(
            agreement_laws::declared(a),
            agreement_laws::received(a, path),
            moves,
        ) is Some,
    ensures
        b.raw(
            guard::routed(
                rewriting::after(
                    agreement_laws::declared(a),
                    agreement_laws::received(a, path),
                    moves,
                )->Some_0.bytes,
                a.case_insensitive,
            ),
            method,
        ) == b.raw(path, method),
{
    // A limit on the length is none of the backend's doing.
    let boundless = PathConfusionGuard { max_path_len: usize::MAX, ..a };
    let settings = GuardConfig { max_path_len: usize::MAX, ..actual };
    lemma_builtin_order(boundless, b, config, path, method);
    agreement_laws::accepted_requests_keep_their_rule(boundless, settings, path, method, moves);
}

/// A NUL is always denied: every active mode rejects a path that holds one, as received or
/// after a declared number of decode passes.
pub proof fn nul_is_always_denied(
    guard: PathConfusionGuard,
    config: GuardConfig,
    path: Seq<u8>,
    passes: nat,
    method: http::Method,
)
    requires
        guard.configured(config),
        guard.mode != GuardMode::Disabled,
        path.len() < usize::MAX,
        passes <= percent::pass_limit(guard.enc.double_decode),
        percent::decode_times(path, passes).contains(0),
    ensures
        guard.builtin_denial(path, method) is Some,
{
    let l = if guard.mode == GuardMode::RejectAmbiguous {
        guard.lens()
    } else {
        guard.strict_lens()
    };
    let found = structural::survey(path, l);
    scan_laws::every_path_has_a_survey(path, l);
    let m = agreement_laws::lemma_settled(
        path,
        percent::pass_limit(guard.enc.double_decode),
        passes,
    );
    let s = structural::scene(path, m);
    percent::lemma_reading(path, m);
    let i = s.bytes.index_of(0);
    agreement_laws::lemma_plain_class(s, l, agreement_laws::declared(guard), i);
    assert(structural::carries(s, l, StructuralClass::NulTruncation));
    assert(found.classes.has(StructuralClass::NulTruncation));
    assert(found.classes.meet(l.enabled).has(StructuralClass::NulTruncation));
}

/// Off is off: a disabled guard denies nothing.
pub proof fn disabled_guards_deny_nothing(
    guard: PathConfusionGuard,
    path: Seq<char>,
    method: http::Method,
)
    requires
        guard.mode == GuardMode::Disabled,
    ensures
        guard.verdict(path, method) == Verdict::Pass,
{
}

} // verus!
