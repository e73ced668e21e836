//! How long the stable prefix of a path is, and what follows for paths inside a subtree.

use vstd::prelude::*;

use crate::agreement_laws;
use crate::anchor;
use crate::canonical_laws;
use crate::config::{CaseSensitivity, GuardConfig};
use crate::guard;
use crate::guard::PathConfusionGuard;
use crate::percent;
use crate::rewriting;
use crate::scan_laws;
use crate::structural;
use crate::structural::{Encodings, Lens, Scene};

verus! {

broadcast use {
    rewriting::lemma_escaped,
    rewriting::lemma_decoded,
    rewriting::lemma_decoded_times,
    rewriting::lemma_spelling,
};

/// The stable prefix ends behind the last slash.
pub proof fn prefixes_end_behind_the_last_slash(s: Seq<u8>, k: int)
    ensures
        0 <= k < s.len() && s[k] == '/' as u8 && (forall|i: int|
            k < i < s.len() ==> #[trigger] s[i] != '/' as u8) ==> anchor::through_slash(s)
            == s.take(k + 1),
        !s.contains('/' as u8) ==> anchor::through_slash(s) == seq!['/' as u8],
    decreases s.len(),
{
    if s.len() > 0 {
        if s.last() == 0x2F {
            assert(s.contains(s[s.len() - 1]));
            assert(s.take(s.len() as int) =~= s);
        } else {
            let t = s.drop_last();
            prefixes_end_behind_the_last_slash(t, k);
            if 0 <= k < s.len() && s[k] == 0x2F {
                assert(t.take(k + 1) =~= s.take(k + 1));
            }
            if t.contains(0x2F) {
                let i = t.index_of(0x2F);
                assert(s[i] == 0x2F);
            }
        }
    }
}

/// Raising an anchor drops one segment at a time; the root has none to drop.
pub proof fn raising_drops_segments(q: Seq<u8>, seg: Seq<u8>, k: nat)
    requires
        q.len() > 0,
        q.last() == '/' as u8,
        !seg.contains('/' as u8),
        seg.len() > 0,
    ensures
        anchor::raised(q, 0) == q,
        anchor::raised(seq!['/' as u8], k) == seq!['/' as u8],
        anchor::raised(q + seg + seq!['/' as u8], k + 1) == anchor::raised(q, k),
{
    let whole = q + seg + seq![0x2Fu8];
    let inner = q + seg;
    assert(whole.drop_last() =~= inner);
    assert(whole.len() > anchor::root().len());
    prefixes_end_behind_the_last_slash(inner, q.len() - 1);
    assert forall|i: int| q.len() - 1 < i < inner.len() implies #[trigger] inner[i] != 0x2F by {
        assert(seg.contains(seg[i - q.len()]));
        assert(inner[i] == seg[i - q.len()]);
    }
    assert(inner.take(q.len() as int) =~= q);
}

/// Whether no byte up to the slash at `k` can be rewritten and no structural form begins there:
/// no `%`, no letter that would be lowercased, no NUL, no `;`, no `\` that separates, no `//`,
/// no dot-segment and no declared spelling of one of these.
pub open spec fn firm_until(path: Seq<u8>, k: int, config: GuardConfig) -> bool {
    let p = rewriting::declared(config);
    &&& 0 <= k < path.len()
    &&& path[0] == '/' as u8
    &&& path[k] == '/' as u8
    &&& forall|i: int|
        0 <= i <= k ==> {
            &&& #[trigger] path[i] != '%' as u8
            &&& path[i] != 0
            &&& path[i] != ';' as u8
            &&& !(p.backslash && path[i] == '\\' as u8)
            &&& !(config.case_sensitivity == CaseSensitivity::Insensitive && 'A' as u8 <= path[i]
                <= 'Z' as u8)
        }
    &&& forall|i: int|
        0 < i <= k ==> !(path[i - 1] == '/' as u8 && #[trigger] path[i] == '/' as u8)
    &&& forall|a: int, e: int| a <= k ==> !(#[trigger] canonical_laws::dot_name(path, a, e))
    &&& forall|at: int, c: u8, width: int|
        at <= k && #[trigger] rewriting::spells(path, p.enc, at, c, width) ==> c == '\\' as u8
            && !p.backslash
}

/// Whether no dot stands where a segment may begin, and none is spelled in another form.
pub open spec fn undotted(b: Seq<u8>, enc: Encodings) -> bool {
    &&& forall|i: int|
        0 <= i < b.len() && #[trigger] b[i] == '.' as u8 ==> {
            &&& i > 0
            &&& b[i - 1] < 0x80
            &&& b[i - 1] != '/' as u8
            &&& b[i - 1] != '\\' as u8
        }
    &&& forall|at: int, width: int| !(#[trigger] rewriting::spells(b, enc, at, '.' as u8, width))
}

/// Whether no declared decode pass can make a segment of the path a dot-segment.
pub open spec fn climbless(path: Seq<u8>, config: GuardConfig) -> bool {
    &&& forall|n: nat|
        n <= rewriting::passes(config) ==> undotted(
            #[trigger] rewriting::decoded_times(path, n),
            rewriting::declared(config).enc,
        )
    &&& forall|n: nat, at: int|
        n < rewriting::passes(config) ==> !(#[trigger] rewriting::escapes(
            rewriting::decoded_times(path, n),
            at,
            '.' as u8,
        ))
}

/// Where nothing can become a dot-segment, none is counted.
proof fn lemma_no_climbs(path: Seq<u8>, config: GuardConfig, l: Lens, n: nat, m: nat)
    requires
        climbless(path, config),
        l.enc == rewriting::declared(config).enc,
        n <= structural::last_pass(path, l.enc),
    ensures
        structural::climb_count(structural::scene(path, n), l, m) == 0,
    decreases m,
{
    if m > 0 {
        lemma_no_climbs(path, config, l, n, (m - 1) as nat);
        let s = structural::scene(path, n);
        canonical_laws::lemma_effective_bound(path, percent::pass_limit(l.enc.double_decode));
        percent::lemma_reading(path, n);
        let b = s.bytes;
        assert(rewriting::decoded_times(path, n) == b);
        assert(undotted(b, l.enc));
        assert forall|i: int| 0 <= i < b.len() && structural::face_at(b, l.enc, i) == 0x2E implies b[i]
            == 0x2E && structural::form_at(b, l.enc, i) is None by {
            if let Some((c, w)) = structural::form_at(b, l.enc, i) {
                assert(rewriting::spelling(b, l.enc, i) == Some((c, w)));
                assert(rewriting::spells(b, l.enc, i, c, w));
            }
        }
        if structural::climbs(s, l, m - 1) {
            let a = choose|a: int| #[trigger] structural::may_climb(s, l, a, m - 1);
            structural::lemma_begin_is_start(s, l, a);
            if structural::dots_only(s, l, a, m - 1) {
                assert(b[a] == 0x2E);
                let p = choose|p: int| #[trigger]
                    structural::separates(s, l, p) && p + structural::width_at(b, l.enc, p) == a;
                if structural::form_at(b, l.enc, p) is Some {
                    assert(b[a - 1] >= 0x80);
                } else {
                    assert(b[a - 1] == 0x2F || b[a - 1] == 0x5C);
                }
            } else {
                let i = choose|j: int|
                    a <= j < m - 1 && #[trigger] structural::starts_at(b, l.enc, j)
                        && structural::face_at(b, l.enc, j) == 0x2E && structural::coded_at(
                        s,
                        l.enc,
                        j,
                    );
                assert(b[i] == 0x2E && s.escaped[i]);
                let (q, at) = canonical_laws::lemma_escape_origin(path, n, i);
                rewriting::lemma_escapes(rewriting::decoded_times(path, q), at, 0x2E);
                assert(rewriting::escapes(rewriting::decoded_times(path, q), at, 0x2E));
            }
        }
    }
}

/// Up to the slash, an interpretation is the path itself.
proof fn lemma_front_stays(path: Seq<u8>, k: int, n: nat)
    requires
        0 <= k < path.len(),
        forall|i: int| 0 <= i <= k ==> #[trigger] path[i] != 0x25,
    ensures
        percent::reading(path, n).bytes.len() > k,
        forall|i: int|
            0 <= i <= k ==> #[trigger] percent::reading(path, n).bytes[i] == path[i]
                && percent::reading(path, n).sources[i] == i,
    decreases n,
{
    if n > 0 {
        let m = (n - 1) as nat;
        lemma_front_stays(path, k, m);
        let before = percent::reading(path, m);
        percent::lemma_reading(path, m);
        lemma_front_offsets(before.bytes, 0, k);
        percent::lemma_offsets(before.bytes, 0);
        assert forall|i: int| 0 <= i <= k implies #[trigger] percent::reading(path, n).bytes[i]
            == path[i] && percent::reading(path, n).sources[i] == i by {
            assert(before.bytes[i] == path[i]);
            assert(percent::decode(before.bytes)[i] == before.bytes[i]);
            assert(percent::decode_offsets(before.bytes, 0)[i] == i);
        }
    }
}

proof fn lemma_front_offsets(s: Seq<u8>, base: int, k: int)
    requires
        0 <= k < s.len(),
        forall|i: int| 0 <= i <= k ==> #[trigger] s[i] != 0x25,
    ensures
        percent::decode(s).len() > k,
        forall|i: int|
            0 <= i <= k ==> #[trigger] percent::decode(s)[i] == s[i] && percent::decode_offsets(
                s,
                base,
            )[i] == base + i,
    decreases k,
{
    percent::lemma_offsets(s, base);
    assert(s[0] != 0x25);
    let t = s.skip(1);
    percent::lemma_offsets(t, base + 1);
    if k > 0 {
        assert forall|i: int| 0 <= i <= k - 1 implies #[trigger] t[i] != 0x25 by {
            assert(t[i] == s[i + 1]);
        }
        lemma_front_offsets(t, base + 1, k - 1);
    }
    assert forall|i: int| 0 <= i <= k implies #[trigger] percent::decode(s)[i] == s[i]
        && percent::decode_offsets(s, base)[i] == base + i by {
        if i > 0 {
            assert(percent::decode(t)[i - 1] == t[i - 1]);
        }
    }
}

/// An interpretation whose bytes up to the slash are those of the path.
spec fn fronted(s: Scene, path: Seq<u8>, k: int) -> bool {
    &&& s.bytes.len() > k
    &&& s.escaped.len() == s.bytes.len()
    &&& s.sources.len() == s.bytes.len()
    &&& forall|i: int|
        0 <= i <= k ==> #[trigger] s.bytes[i] == path[i] && !s.escaped[i] && s.sources[i] == i
    &&& forall|i: int| k < i < s.bytes.len() ==> #[trigger] s.sources[i] > k
}

proof fn lemma_fronted(path: Seq<u8>, k: int, n: nat)
    requires
        0 <= k < path.len(),
        forall|i: int| 0 <= i <= k ==> #[trigger] path[i] != 0x25,
    ensures
        fronted(structural::scene(path, n), path, k),
{
    let s = structural::scene(path, n);
    percent::lemma_reading(path, n);
    lemma_front_stays(path, k, n);
    let r = percent::reading(path, n);
    assert forall|i: int| 0 <= i <= k implies #[trigger] s.bytes[i] == path[i] && !s.escaped[i]
        && s.sources[i] == i by {
        assert(r.bytes[i] == path[i]);
        assert(path[i] != 0x25);
    }
    assert forall|i: int| k < i < s.bytes.len() implies #[trigger] s.sources[i] > k by {
        assert(r.bytes[k] == path[k]);
        assert(r.sources[i] > r.sources[k]);
    }
}

/// The spellings up to the slash are those of the path.
proof fn lemma_front_forms(s: Scene, path: Seq<u8>, k: int, config: GuardConfig, i: int)
    requires
        firm_until(path, k, config),
        fronted(s, path, k),
        i <= k,
        structural::form_at(s.bytes, rewriting::declared(config).enc, i) is Some,
    ensures
        (structural::form_at(s.bytes, rewriting::declared(config).enc, i)->Some_0).0 == 0x5C,
        !rewriting::declared(config).backslash,
{
    let b = s.bytes;
    let enc = rewriting::declared(config).enc;
    let (c, w) = structural::form_at(b, enc, i)->Some_0;
    assert(rewriting::spelling(b, enc, i) == Some((c, w)));
    assert(rewriting::spells(b, enc, i, c, w));
    assert(b[k] == path[k]);
    assert(i + w <= k) by {
        if i + w > k {
            assert(b[k] >= 0x80);
        }
    }
    assert(forall|j: int| i <= j < i + w ==> b[j] == path[j]);
    assert(rewriting::spells(path, enc, i, c, w));
}

/// No character up to the slash has an enabled class.
proof fn lemma_class_behind(s: Scene, path: Seq<u8>, k: int, config: GuardConfig, l: Lens, i: int)
    requires
        firm_until(path, k, config),
        fronted(s, path, k),
        l.enc == rewriting::declared(config).enc,
        l.enabled.backslash == rewriting::declared(config).backslash,
        !l.enabled.case,
        structural::starts_at(s.bytes, l.enc, i),
        structural::class_at(s, l.enc, i) is Some,
        l.enabled.has(structural::class_at(s, l.enc, i)->Some_0),
    ensures
        i > k,
{
    let b = s.bytes;
    let enc = l.enc;
    if i <= k {
        assert(b[i] == path[i]);
        if structural::form_at(b, enc, i) is Some {
            lemma_front_forms(s, path, k, config, i);
        } else if b[i] == 0x2F {
            let p = choose|p: int| #[trigger]
                structural::starts_at(b, enc, p) && p + structural::width_at(b, enc, p) == i
                    && structural::face_at(b, enc, p) == 0x2F;
            if structural::form_at(b, enc, p) is Some {
                lemma_front_forms(s, path, k, config, p);
            }
            assert(b[p] == path[p] && path[i - 1] == 0x2F && path[i] == 0x2F);
        }
    }
}

/// No dot-segment begins up to the slash.
proof fn lemma_dots_behind(
    s: Scene,
    path: Seq<u8>,
    k: int,
    config: GuardConfig,
    l: Lens,
    a: int,
    e: int,
)
    requires
        firm_until(path, k, config),
        fronted(s, path, k),
        l.enc == rewriting::declared(config).enc,
        l.enabled.backslash == rewriting::declared(config).backslash,
        structural::segment(s, l, a, e),
        structural::dots_only(s, l, a, e),
    ensures
        a > k,
{
    let b = s.bytes;
    let enc = l.enc;
    structural::lemma_begin_is_start(s, l, a);
    if a <= k {
        assert(b[a] == path[a]);
        assert(b[k] == path[k]);
        agreement_laws::lemma_starts(b, enc, k);
        assert(structural::separates(s, l, k));
        assert(e <= k);
        if structural::form_at(b, enc, a) is Some {
            lemma_front_forms(s, path, k, config, a);
        }
        if a > 0 {
            let p = choose|p: int| #[trigger]
                structural::separates(s, l, p) && p + structural::width_at(b, enc, p) == a;
            if structural::form_at(b, enc, p) is Some {
                lemma_front_forms(s, path, k, config, p);
            }
            assert(b[p] == path[p]);
        }
        assert(structural::separates(s, l, e));
        if structural::form_at(b, enc, e) is Some {
            lemma_front_forms(s, path, k, config, e);
        }
        assert(b[e] == path[e]);
        let m = a + 1;
        if m < e {
            assert(b[m] == path[m]);
            if structural::form_at(b, enc, m) is Some {
                lemma_front_forms(s, path, k, config, m);
            }
            if m + 1 < e {
                assert(b[m + 1] == path[m + 1]);
                if structural::form_at(b, enc, m + 1) is Some {
                    lemma_front_forms(s, path, k, config, m + 1);
                }
            }
        }
        assert(canonical_laws::dot_name(path, a, e));
    }
}

/// Nothing occurs up to the slash.
proof fn lemma_occurs_behind(path: Seq<u8>, k: int, config: GuardConfig, l: Lens, n: nat, x: int)
    requires
        firm_until(path, k, config),
        l.enc == rewriting::declared(config).enc,
        l.enabled.backslash == rewriting::declared(config).backslash,
        !l.enabled.case,
        structural::occurs(structural::scene(path, n), l, x),
    ensures
        x > k,
{
    let s = structural::scene(path, n);
    lemma_fronted(path, k, n);
    percent::lemma_reading(path, n);
    if exists|i: int| #[trigger]
        structural::starts_at(s.bytes, l.enc, i) && structural::class_at(s, l.enc, i) is Some
            && l.enabled.has(structural::class_at(s, l.enc, i)->Some_0) && s.sources[i] == x {
        let i = choose|i: int| #[trigger]
            structural::starts_at(s.bytes, l.enc, i) && structural::class_at(s, l.enc, i) is Some
                && l.enabled.has(structural::class_at(s, l.enc, i)->Some_0) && s.sources[i] == x;
        lemma_class_behind(s, path, k, config, l, i);
    } else {
        let (a, e) = choose|a: int, e: int| #[trigger]
            structural::segment(s, l, a, e) && structural::dots_only(s, l, a, e) && s.sources[a]
                == x;
        structural::lemma_begin_is_start(s, l, a);
        lemma_dots_behind(s, path, k, config, l, a, e);
    }
}

/// The stable prefix is as long as it can be: up to any slash before which nothing can be
/// rewritten and no structural form begins, the anchor of a flagged path is the path, unless
/// the path may climb.
pub proof fn anchors_reach_as_far_as_they_can(
    guard: PathConfusionGuard,
    config: GuardConfig,
    path: Seq<u8>,
    k: int,
)
    requires
        guard.configured(config),
        path.len() < usize::MAX,
        firm_until(path, k, config),
        climbless(path, config),
        !guard.flagged(path).is_void(),
    ensures
        path.take(k + 1).is_prefix_of(guard.anchor(path)),
        guard.anchor(path).is_prefix_of(path),
        guard.anchor(path).last() == '/' as u8,
{
    let l = guard.lens();
    scan_laws::every_path_has_a_survey(path, l);
    let found = structural::survey(path, l);
    guard::lemma_flagged_offset(path, l);
    let e = found.earliest->Some_0 as int;
    let n = choose|n: nat|
        n <= structural::last_pass(path, l.enc) && #[trigger] structural::occurs(
            structural::scene(path, n),
            l,
            e,
        );
    lemma_occurs_behind(path, k, config, l, n, e);
    let m = choose|m: nat|
        m <= structural::last_pass(path, l.enc) && #[trigger] structural::climbs_in(path, l, m)
            == found.dot_pops;
    lemma_no_climbs(path, config, l, m, structural::scene(path, m).bytes.len() + 1);
    assert(found.dot_pops == 0);
    anchor::lemma_content_from(path, guard.case_insensitive, 0);
    let c = anchor::content_from(path, guard.case_insensitive, 0);
    assert(c > k) by {
        if c <= k {
            assert(anchor::rewritable(path[c], guard.case_insensitive));
        }
    }
    let b = anchor::bound(path, guard.case_insensitive, e);
    assert(k < b <= path.len());
    let t = path.take(b);
    let end = lemma_last_slash(t, k);
    prefixes_end_behind_the_last_slash(t, end);
    let q = guard.anchor(path);
    assert(q == t.take(end + 1));
    assert(q =~= path.take(end + 1));
    assert(q.take(k + 1) =~= path.take(k + 1));
    assert(path.take(k + 1) =~= q.take(path.take(k + 1).len() as int));
    assert(q.last() == t[end]);
}

proof fn lemma_last_slash(t: Seq<u8>, k: int) -> (end: int)
    requires
        0 <= k < t.len(),
        t[k] == 0x2F,
    ensures
        k <= end < t.len(),
        t[end] == 0x2F,
        forall|i: int| end < i < t.len() ==> #[trigger] t[i] != 0x2F,
    decreases t.len() - k,
{
    if exists|i: int| k < i < t.len() && #[trigger] t[i] == 0x2F {
        let i = choose|i: int| k < i < t.len() && #[trigger] t[i] == 0x2F;
        lemma_last_slash(t, i)
    } else {
        k
    }
}

} // verus!
