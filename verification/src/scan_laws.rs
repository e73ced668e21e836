//! Laws of the byte scanner.

use vstd::prelude::*;

use crate::config::StructuralClass;
use crate::percent;
use crate::structural;
use crate::structural::{ClassSet, Lens, ScanResult, Scene};

verus! {

/// From a beginning, a segment reaches to the first separator or to the end.
proof fn lemma_segment_end(s: Scene, l: Lens, a: int) -> (b: int)
    requires
        structural::begins(s, l, a),
    ensures
        structural::segment(s, l, a, b),
{
    structural::lemma_begin_is_start(s, l, a);
    lemma_first_separator(s, l, a, a)
}

proof fn lemma_first_separator(
    s: Scene,
    l: Lens,
    a: int,
    i: int,
) -> (b: int)
    requires
        structural::begins(s, l, a),
        a <= i <= s.bytes.len(),
        forall|j: int| a <= j < i ==> !(#[trigger] structural::separates(s, l, j)),
    ensures
        structural::segment(s, l, a, b),
        i <= b,
    decreases s.bytes.len() - i,
{
    if i == s.bytes.len() || structural::separates(s, l, i) {
        i
    } else {
        lemma_first_separator(s, l, a, i + 1)
    }
}

/// A character that separates nothing lies in some segment.
proof fn lemma_enclosing(
    s: Scene,
    l: Lens,
    a: int,
    j: int,
) -> (seg: (int, int))
    requires
        structural::begins(s, l, a),
        a <= j < s.bytes.len(),
        structural::starts_at(s.bytes, l.enc, j),
        !structural::separates(s, l, j),
    ensures
        structural::segment(s, l, seg.0, seg.1),
        a <= seg.0 <= j < seg.1,
    decreases s.bytes.len() - a,
{
    let b = lemma_segment_end(s, l, a);
    if j < b {
        (a, b)
    } else {
        assert(structural::separates(s, l, b));
        structural::lemma_next_start(s.bytes, l.enc, b);
        structural::lemma_start_order(s.bytes, l.enc, b, j);
        lemma_enclosing(s, l, b + structural::width_at(s.bytes, l.enc, b), j)
    }
}

proof fn lemma_some_climb(s: Scene, l: Lens, n: nat)
    ensures
        structural::climb_count(s, l, n) > 0 <==> exists|b: int|
            0 <= b < n && #[trigger] structural::climbs(s, l, b),
    decreases n,
{
    if n > 0 {
        lemma_some_climb(s, l, (n - 1) as nat);
        if exists|b: int| 0 <= b < n && #[trigger] structural::climbs(s, l, b) {
            let b = choose|b: int| 0 <= b < n && #[trigger] structural::climbs(s, l, b);
            if b < n - 1 {
                assert(structural::climb_count(s, l, (n - 1) as nat) > 0);
            }
        }
        if structural::climb_count(s, l, n) > 0 && !structural::climbs(s, l, n - 1) {
            let b = choose|b: int| 0 <= b < n - 1 && #[trigger] structural::climbs(s, l, b);
            assert(structural::climbs(s, l, b));
        }
    }
}

/// In one interpretation: a dot-segment is reported exactly where one may climb.
proof fn lemma_climbs_iff_dot(s: Scene, l: Lens)
    ensures
        structural::climb_count(s, l, s.bytes.len() + 1) > 0
            <==> structural::carries(s, l, StructuralClass::DotSegment),
{
    let len = s.bytes.len();
    lemma_some_climb(s, l, len + 1);
    if structural::climb_count(s, l, len + 1) > 0 {
        let b = choose|b: int| 0 <= b < len + 1 && #[trigger] structural::climbs(s, l, b);
        let a = choose|a: int| #[trigger] structural::may_climb(s, l, a, b);
        if structural::dots_only(s, l, a, b) {
            assert(structural::segment(s, l, a, b));
        } else {
            let j = choose|j: int|
                a <= j < b && #[trigger] structural::starts_at(s.bytes, l.enc, j)
                    && structural::face_at(s.bytes, l.enc, j) == 0x2E
                    && structural::coded_at(s, l.enc, j);
            assert(structural::class_at(s, l.enc, j) == Some(StructuralClass::DotSegment));
        }
    }
    if structural::carries(s, l, StructuralClass::DotSegment) {
        if exists|i: int| #[trigger]
            structural::starts_at(s.bytes, l.enc, i) && structural::class_at(
                s,
                l.enc,
                i,
            ) == Some(StructuralClass::DotSegment) {
            let j = choose|i: int| #[trigger]
                structural::starts_at(s.bytes, l.enc, i) && structural::class_at(
                    s,
                    l.enc,
                    i,
                ) == Some(StructuralClass::DotSegment);
            let (a, b) = lemma_enclosing(s, l, 0, j);
            assert(structural::coded_dot(s, l, a, b));
            assert(structural::may_climb(s, l, a, b));
            assert(structural::climbs(s, l, b));
        } else {
            let (a, b) = choose|a: int, b: int| #[trigger]
                structural::segment(s, l, a, b) && structural::dots_only(s, l, a, b);
            assert(structural::may_climb(s, l, a, b));
            assert(structural::climbs(s, l, b));
        }
    }
}

/// An enabled class is carried exactly where there is an enabled occurrence, inside the
/// original path.
proof fn lemma_occurs_iff_carries(
    path: Seq<u8>,
    n: nat,
    l: Lens,
)
    ensures
        (exists|class: StructuralClass|
            l.enabled.has(class) && #[trigger] structural::carries(
                structural::scene(path, n),
                l,
                class,
            )) <==> (exists|o: int| #[trigger]
            structural::occurs(structural::scene(path, n), l, o)),
        forall|o: int| #[trigger]
            structural::occurs(structural::scene(path, n), l, o) ==> 0 <= o
                < path.len(),
{
    let s = structural::scene(path, n);
    percent::lemma_reading(path, n);
    assert forall|o: int| #[trigger] structural::occurs(s, l, o) implies 0 <= o < path.len()
        && exists|class: StructuralClass|
        l.enabled.has(class) && #[trigger] structural::carries(s, l, class) by {
        if exists|i: int| #[trigger]
            structural::starts_at(s.bytes, l.enc, i) && structural::class_at(
                s,
                l.enc,
                i,
            ) is Some && l.enabled.has(structural::class_at(s, l.enc, i)->Some_0)
                && s.sources[i] == o {
            let i = choose|i: int| #[trigger]
                structural::starts_at(s.bytes, l.enc, i) && structural::class_at(
                    s,
                    l.enc,
                    i,
                ) is Some && l.enabled.has(structural::class_at(s, l.enc, i)->Some_0)
                    && s.sources[i] == o;
            let class = structural::class_at(s, l.enc, i)->Some_0;
            assert(structural::carries(s, l, class));
        } else {
            let (a, b) = choose|a: int, b: int| #[trigger]
                structural::segment(s, l, a, b) && structural::dots_only(s, l, a, b)
                    && s.sources[a] == o;
            structural::lemma_begin_is_start(s, l, a);
            assert(structural::carries(s, l, StructuralClass::DotSegment));
        }
    }
    if exists|class: StructuralClass|
        l.enabled.has(class) && #[trigger] structural::carries(s, l, class) {
        let class = choose|class: StructuralClass|
            l.enabled.has(class) && #[trigger] structural::carries(s, l, class);
        if exists|i: int| #[trigger]
            structural::starts_at(s.bytes, l.enc, i) && structural::class_at(
                s,
                l.enc,
                i,
            ) == Some(class) {
            let i = choose|i: int| #[trigger]
                structural::starts_at(s.bytes, l.enc, i) && structural::class_at(
                    s,
                    l.enc,
                    i,
                ) == Some(class);
            assert(structural::occurs(s, l, s.sources[i]));
        } else {
            let (a, b) = choose|a: int, b: int| #[trigger]
                structural::segment(s, l, a, b) && structural::dots_only(s, l, a, b);
            assert(structural::occurs(s, l, s.sources[a]));
        }
    }
}

/// A scan is consistent with itself: an earliest offset exists exactly when an enabled
/// class is present, it lies inside the path, and the climb count is positive exactly
/// when a dot-segment is present.
pub proof fn scan_is_consistent(path: Seq<u8>, l: Lens, r: ScanResult)
    requires
        structural::describes_all(r, path, l),
    ensures
        r.earliest is Some <==> exists|class: StructuralClass|
            l.enabled.has(class) && #[trigger] r.classes.has(class),
        r.earliest matches Some(at) ==> at < path.len(),
        r.dot_pops >= 1 <==> r.classes.has(StructuralClass::DotSegment),
{
    let last = structural::last_pass(path, l.enc);
    assert forall|n: nat| n <= last implies (#[trigger] structural::climbs_in(path, l, n) > 0
        <==> structural::carries(
        structural::scene(path, n),
        l,
        StructuralClass::DotSegment,
    )) by {
        lemma_climbs_iff_dot(structural::scene(path, n), l);
    }
    if r.dot_pops >= 1 {
        let n = choose|n: nat|
            n <= last && #[trigger] structural::climbs_in(path, l, n) == r.dot_pops;
        assert(structural::carries(
            structural::scene(path, n),
            l,
            StructuralClass::DotSegment,
        ));
    }
    if r.classes.has(StructuralClass::DotSegment) {
        let n = choose|n: nat|
            n <= last && #[trigger] structural::carries(
                structural::scene(path, n),
                l,
                StructuralClass::DotSegment,
            );
        assert(structural::climbs_in(path, l, n) > 0);
    }
    if r.earliest is Some {
        let o = r.earliest->Some_0 as int;
        let n = choose|n: nat|
            n <= last && #[trigger] structural::occurs(
                structural::scene(path, n),
                l,
                o,
            );
        lemma_occurs_iff_carries(path, n, l);
        let class = choose|class: StructuralClass|
            l.enabled.has(class) && #[trigger] structural::carries(
                structural::scene(path, n),
                l,
                class,
            );
        assert(r.classes.has(class));
    }
    if exists|class: StructuralClass| l.enabled.has(class) && #[trigger] r.classes.has(class) {
        let class = choose|class: StructuralClass|
            l.enabled.has(class) && #[trigger] r.classes.has(class);
        let n = choose|n: nat|
            n <= last && #[trigger] structural::carries(
                structural::scene(path, n),
                l,
                class,
            );
        lemma_occurs_iff_carries(path, n, l);
        let o = choose|o: int| #[trigger]
            structural::occurs(structural::scene(path, n), l, o);
        assert(r.earliest is Some);
    }
}

/// Everything that `l` looks for, `m` looks for too.
pub open spec fn narrower(l: Lens, m: Lens) -> bool {
    l.enabled.within(m.enabled) && l.enc.within(m.enc)
}

/// A character that stands for an ASCII byte is read alike under more encodings.
proof fn lemma_same_character(s: Scene, l: Lens, m: Lens, i: int)
    requires
        narrower(l, m),
        structural::starts_at(s.bytes, l.enc, i),
        structural::face_at(s.bytes, l.enc, i) < 0x80,
    ensures
        structural::starts_at(s.bytes, m.enc, i),
        structural::face_at(s.bytes, m.enc, i) == structural::face_at(s.bytes, l.enc, i),
        structural::width_at(s.bytes, m.enc, i) == structural::width_at(s.bytes, l.enc, i),
        structural::coded_at(s, m.enc, i) == structural::coded_at(s, l.enc, i),
{
    let b = s.bytes;
    assert(b[i] < 0x80 || b[i] >= 0xC0);
    if !structural::starts_at(b, m.enc, i) {
        assert(structural::width_at(b, m.enc, i - 1) > 1 || structural::width_at(b, m.enc, i - 2)
            > 2 || structural::width_at(b, m.enc, i - 3) > 3);
        assert(0x80 <= b[i] < 0xC0);
    }
}

proof fn lemma_more_slashes(s: Scene, l: Lens, m: Lens, i: int)
    requires
        narrower(l, m),
        structural::follows_slash(s.bytes, l.enc, i),
    ensures
        structural::follows_slash(s.bytes, m.enc, i),
{
    let p = choose|p: int| #[trigger]
        structural::starts_at(s.bytes, l.enc, p) && p + structural::width_at(s.bytes, l.enc, p)
            == i && structural::face_at(s.bytes, l.enc, p) == 0x2F;
    lemma_same_character(s, l, m, p);
}

proof fn lemma_same_class(s: Scene, l: Lens, m: Lens, i: int)
    requires
        narrower(l, m),
        structural::starts_at(s.bytes, l.enc, i),
        structural::class_at(s, l.enc, i) is Some,
    ensures
        structural::starts_at(s.bytes, m.enc, i),
        structural::class_at(s, m.enc, i) == structural::class_at(s, l.enc, i),
{
    lemma_same_character(s, l, m, i);
    if structural::follows_slash(s.bytes, l.enc, i) {
        lemma_more_slashes(s, l, m, i);
    }
}

proof fn lemma_more_separators(s: Scene, l: Lens, m: Lens, i: int)
    requires
        narrower(l, m),
        structural::separates(s, l, i),
    ensures
        structural::separates(s, m, i),
        structural::width_at(s.bytes, m.enc, i) == structural::width_at(s.bytes, l.enc, i),
{
    lemma_same_character(s, l, m, i);
    assert(l.enabled.has(StructuralClass::Separator) ==> m.enabled.has(StructuralClass::Separator));
    assert(l.enabled.has(StructuralClass::Backslash) ==> m.enabled.has(StructuralClass::Backslash));
}

proof fn lemma_more_beginnings(s: Scene, l: Lens, m: Lens, a: int)
    requires
        narrower(l, m),
        structural::begins(s, l, a),
    ensures
        structural::begins(s, m, a),
{
    if a != 0 {
        let p = choose|p: int| #[trigger]
            structural::separates(s, l, p) && p + structural::width_at(s.bytes, l.enc, p) == a;
        lemma_more_separators(s, l, m, p);
    }
}

/// A literal dot-segment stays one; it ends no later.
proof fn lemma_dots_stay(s: Scene, l: Lens, m: Lens, a: int, b: int) -> (e: int)
    requires
        narrower(l, m),
        structural::segment(s, l, a, b),
        structural::dots_only(s, l, a, b),
    ensures
        structural::segment(s, m, a, e),
        structural::dots_only(s, m, a, e),
        a < e <= b,
{
    let bytes = s.bytes;
    lemma_more_beginnings(s, l, m, a);
    structural::lemma_begin_is_start(s, l, a);
    lemma_same_character(s, l, m, a);
    structural::lemma_next_start(bytes, l.enc, a);
    structural::lemma_next_start(bytes, m.enc, a);
    structural::lemma_start_order(bytes, l.enc, a, b);
    assert(l.enabled.has(StructuralClass::MatrixParam) ==> m.enabled.has(
        StructuralClass::MatrixParam,
    ));
    if b < bytes.len() {
        lemma_more_separators(s, l, m, b);
    }
    let x = a + structural::width_at(bytes, l.enc, a);
    let e = lemma_segment_end(s, m, a);
    assert(!structural::separates(s, m, a));
    if e < b {
        structural::lemma_start_order(bytes, m.enc, a, e);
    }
    if x < b {
        lemma_same_character(s, l, m, x);
        assert(!structural::separates(s, m, x));
        structural::lemma_next_start(bytes, m.enc, x);
        structural::lemma_next_start(bytes, l.enc, x);
        structural::lemma_start_order(bytes, l.enc, x, b);
        if x < e {
            structural::lemma_start_order(bytes, m.enc, x, e);
        }
        let y = x + structural::width_at(bytes, l.enc, x);
        if y < b && structural::face_at(bytes, l.enc, x) == 0x2E && !structural::content_stops(
            s,
            l,
            x,
            b,
        ) {
            lemma_same_character(s, l, m, y);
            assert(!structural::separates(s, m, y));
            structural::lemma_next_start(bytes, m.enc, y);
            if y < e {
                structural::lemma_start_order(bytes, m.enc, y, e);
            }
        }
    }
    e
}

/// Where a segment may climb, some segment inside it may climb under the wider lens.
proof fn lemma_climb_stays(s: Scene, l: Lens, m: Lens, a: int, b: int) -> (e: int)
    requires
        narrower(l, m),
        structural::may_climb(s, l, a, b),
    ensures
        structural::climbs(s, m, e),
        a < e <= b,
{
    if structural::dots_only(s, l, a, b) {
        let e = lemma_dots_stay(s, l, m, a, b);
        assert(structural::may_climb(s, m, a, e));
        e
    } else {
        let j = choose|j: int|
            a <= j < b && #[trigger] structural::starts_at(s.bytes, l.enc, j)
                && structural::face_at(s.bytes, l.enc, j) == 0x2E && structural::coded_at(
                s,
                l.enc,
                j,
            );
        lemma_same_character(s, l, m, j);
        lemma_more_beginnings(s, l, m, a);
        let (x, e) = lemma_enclosing(s, m, a, j);
        assert(structural::coded_dot(s, m, x, e));
        assert(structural::may_climb(s, m, x, e));
        if b < s.bytes.len() {
            lemma_more_separators(s, l, m, b);
            if b < e {
                assert(!structural::separates(s, m, b));
            }
        }
        e
    }
}

proof fn lemma_count_grows(s: Scene, l: Lens, n: nat, k: nat)
    requires
        n <= k,
    ensures
        structural::climb_count(s, l, n) <= structural::climb_count(s, l, k),
        forall|e: int|
            n <= e < k && #[trigger] structural::climbs(s, l, e) ==> structural::climb_count(
                s,
                l,
                n,
            ) < structural::climb_count(s, l, k),
    decreases k - n,
{
    if n < k {
        lemma_count_grows(s, l, n, (k - 1) as nat);
    }
}

proof fn lemma_no_count_inside(s: Scene, l: Lens, a: nat, b: nat)
    requires
        a <= b <= s.bytes.len(),
        forall|j: int| a <= j < b ==> !(#[trigger] structural::separates(s, l, j)),
    ensures
        structural::climb_count(s, l, a) == structural::climb_count(s, l, b),
    decreases b - a,
{
    if a < b {
        lemma_no_count_inside(s, l, a, (b - 1) as nat);
        if structural::climbs(s, l, b - 1) {
            let x = choose|x: int| #[trigger] structural::may_climb(s, l, x, b - 1);
            assert(structural::separates(s, l, b - 1));
        }
    }
}

proof fn lemma_count_monotone(s: Scene, l: Lens, m: Lens, n: nat)
    requires
        narrower(l, m),
        n <= s.bytes.len() + 1,
    ensures
        structural::climb_count(s, l, n) <= structural::climb_count(s, m, n),
    decreases n,
{
    if n > 0 {
        let b = n - 1;
        lemma_count_monotone(s, l, m, b as nat);
        if structural::climbs(s, l, b) {
            let a = choose|a: int| #[trigger] structural::may_climb(s, l, a, b);
            structural::lemma_begin_is_start(s, l, a);
            let e = lemma_climb_stays(s, l, m, a, b);
            lemma_no_count_inside(s, l, a as nat, b as nat);
            lemma_count_monotone(s, l, m, a as nat);
            lemma_count_grows(s, m, a as nat, n);
        } else {
            lemma_count_grows(s, m, b as nat, n);
        }
    }
}

proof fn lemma_carries_monotone(s: Scene, l: Lens, m: Lens, class: StructuralClass)
    requires
        narrower(l, m),
        structural::carries(s, l, class),
    ensures
        structural::carries(s, m, class),
{
    if exists|i: int| #[trigger]
        structural::starts_at(s.bytes, l.enc, i) && structural::class_at(s, l.enc, i) == Some(
            class,
        ) {
        let i = choose|i: int| #[trigger]
            structural::starts_at(s.bytes, l.enc, i) && structural::class_at(s, l.enc, i) == Some(
                class,
            );
        lemma_same_class(s, l, m, i);
    } else {
        let (a, b) = choose|a: int, b: int| #[trigger]
            structural::segment(s, l, a, b) && structural::dots_only(s, l, a, b);
        let e = lemma_dots_stay(s, l, m, a, b);
        assert(structural::segment(s, m, a, e));
    }
}

proof fn lemma_occurs_monotone(s: Scene, l: Lens, m: Lens, o: int)
    requires
        narrower(l, m),
        structural::occurs(s, l, o),
    ensures
        structural::occurs(s, m, o),
{
    if exists|i: int| #[trigger]
        structural::starts_at(s.bytes, l.enc, i) && structural::class_at(s, l.enc, i) is Some
            && l.enabled.has(structural::class_at(s, l.enc, i)->Some_0) && s.sources[i] == o {
        let i = choose|i: int| #[trigger]
            structural::starts_at(s.bytes, l.enc, i) && structural::class_at(s, l.enc, i) is Some
                && l.enabled.has(structural::class_at(s, l.enc, i)->Some_0) && s.sources[i] == o;
        lemma_same_class(s, l, m, i);
        assert(m.enabled.has(structural::class_at(s, m.enc, i)->Some_0));
    } else {
        let (a, b) = choose|a: int, b: int| #[trigger]
            structural::segment(s, l, a, b) && structural::dots_only(s, l, a, b) && s.sources[a]
                == o;
        let e = lemma_dots_stay(s, l, m, a, b);
        assert(structural::segment(s, m, a, e));
        assert(l.enabled.has(StructuralClass::DotSegment) ==> m.enabled.has(
            StructuralClass::DotSegment,
        ));
    }
}

proof fn lemma_more_passes(s: Seq<u8>, a: nat, b: nat)
    requires
        a <= b,
    ensures
        percent::effective_passes(s, a) <= percent::effective_passes(s, b),
    decreases a,
{
    if a > 0 && percent::has_escape(s) {
        lemma_more_passes(percent::decode(s), (a - 1) as nat, (b - 1) as nat);
    }
}

/// Widening the enabled classes or the recognised encodings can only add enabled
/// classes, move the earliest occurrence forward, and raise the climb count.
pub proof fn scan_is_monotone(path: Seq<u8>, l: Lens, m: Lens, r: ScanResult, q: ScanResult)
    requires
        narrower(l, m),
        structural::describes_all(r, path, l),
        structural::describes_all(q, path, m),
    ensures
        forall|class: StructuralClass|
            l.enabled.has(class) && #[trigger] r.classes.has(class) ==> m.enabled.has(class)
                && q.classes.has(class),
        r.earliest is Some ==> q.earliest is Some && q.earliest->Some_0 <= r.earliest->Some_0,
        r.dot_pops <= q.dot_pops,
{
    let last = structural::last_pass(path, l.enc);
    lemma_more_passes(
        path,
        percent::pass_limit(l.enc.double_decode),
        percent::pass_limit(m.enc.double_decode),
    );
    assert(last <= structural::last_pass(path, m.enc));
    assert forall|class: StructuralClass|
        l.enabled.has(class) && #[trigger] r.classes.has(class) implies m.enabled.has(class)
        && q.classes.has(class) by {
        let n = choose|n: nat|
            n <= last && #[trigger] structural::carries(structural::scene(path, n), l, class);
        lemma_carries_monotone(structural::scene(path, n), l, m, class);
    }
    if r.earliest is Some {
        let o = r.earliest->Some_0 as int;
        let n = choose|n: nat|
            n <= last && #[trigger] structural::occurs(structural::scene(path, n), l, o);
        lemma_occurs_monotone(structural::scene(path, n), l, m, o);
    }
    let n = choose|n: nat| n <= last && #[trigger] structural::climbs_in(path, l, n) == r.dot_pops;
    let s = structural::scene(path, n);
    lemma_count_monotone(s, l, m, s.bytes.len() + 1);
    assert(structural::climbs_in(path, m, n) <= q.dot_pops);
}

/// The least of the numbers that something holds of.
proof fn lemma_least(holds: spec_fn(int) -> bool, x: int) -> (least: int)
    requires
        holds(x),
        0 <= x,
        forall|y: int| #[trigger] holds(y) ==> 0 <= y,
    ensures
        holds(least),
        0 <= least <= x,
        forall|y: int| #[trigger] holds(y) ==> least <= y,
    decreases x,
{
    if exists|y: int| #[trigger] holds(y) && y < x {
        let y = choose|y: int| #[trigger] holds(y) && y < x;
        lemma_least(holds, y)
    } else {
        x
    }
}

proof fn lemma_climb_bound(s: Scene, l: Lens, n: nat)
    ensures
        structural::climb_count(s, l, n) <= n,
    decreases n,
{
    if n > 0 {
        lemma_climb_bound(s, l, (n - 1) as nat);
    }
}

/// The most climbs among the interpretations up to `last`.
proof fn lemma_most_climbs(path: Seq<u8>, l: Lens, last: nat) -> (n: nat)
    ensures
        n <= last,
        forall|m: nat| m <= last ==> #[trigger] structural::climbs_in(path, l, m)
            <= structural::climbs_in(path, l, n),
    decreases last,
{
    if last == 0 {
        0
    } else {
        let n = lemma_most_climbs(path, l, (last - 1) as nat);
        if structural::climbs_in(path, l, n) <= structural::climbs_in(path, l, last) {
            assert forall|m: nat| m <= last implies #[trigger] structural::climbs_in(path, l, m)
                <= structural::climbs_in(path, l, last) by {
                if m < last {
                    assert(structural::climbs_in(path, l, m) <= structural::climbs_in(path, l, n));
                }
            }
            last
        } else {
            assert forall|m: nat| m <= last implies #[trigger] structural::climbs_in(path, l, m)
                <= structural::climbs_in(path, l, n) by {
                if m < last {
                    assert(m <= last - 1);
                }
            }
            n
        }
    }
}

/// There is something to say of every path whose length a machine can hold.
pub proof fn every_path_has_a_survey(path: Seq<u8>, l: Lens)
    requires
        path.len() < usize::MAX,
    ensures
        structural::describes_all(structural::survey(path, l), path, l),
{
    let last = structural::last_pass(path, l.enc);
    let classes = ClassSet {
        separator: structural::carried(path, l, StructuralClass::Separator),
        dot_segment: structural::carried(path, l, StructuralClass::DotSegment),
        param: structural::carried(path, l, StructuralClass::MatrixParam),
        truncation: structural::carried(path, l, StructuralClass::NulTruncation),
        case: structural::carried(path, l, StructuralClass::Uppercase),
        backslash: structural::carried(path, l, StructuralClass::Backslash),
    };
    let somewhere = |x: int|
        exists|n: nat| n <= last && #[trigger] structural::occurs(structural::scene(path, n), l, x);
    assert forall|x: int| #[trigger] somewhere(x) implies 0 <= x < path.len() by {
        let n = choose|n: nat|
            n <= last && #[trigger] structural::occurs(structural::scene(path, n), l, x);
        lemma_occurs_within(path, l, n, x);
    }
    let earliest: Option<usize> = if exists|x: int| #[trigger] somewhere(x) {
        let x = choose|x: int| #[trigger] somewhere(x);
        let least = lemma_least(somewhere, x);
        Some(least as usize)
    } else {
        None
    };
    let most = lemma_most_climbs(path, l, last);
    let bytes = structural::scene(path, most).bytes;
    lemma_climb_bound(structural::scene(path, most), l, bytes.len() + 1);
    percent::lemma_reading(path, most);
    lemma_no_longer(path, most);
    let dot_pops = structural::climbs_in(path, l, most) as usize;
    let r = ScanResult { classes, earliest, dot_pops };
    assert forall|class: StructuralClass| #[trigger] r.classes.has(class) <==> exists|n: nat|
        n <= last && #[trigger] structural::carries(structural::scene(path, n), l, class) by {
        assert(r.classes.has(class) <==> structural::carried(path, l, class));
    }
    assert forall|n: nat, x: int|
        n <= last && #[trigger] structural::occurs(structural::scene(path, n), l, x) implies (
    earliest matches Some(o) && o <= x) by {
        assert(somewhere(x));
    }
    if earliest is Some {
        let o = earliest->Some_0 as int;
        assert(somewhere(o));
    }
    assert(structural::describes_all(r, path, l));
    structural::lemma_one_survey(r, path, l);
}

/// What occurs, occurs in the path.
proof fn lemma_occurs_within(path: Seq<u8>, l: Lens, n: nat, x: int)
    requires
        structural::occurs(structural::scene(path, n), l, x),
    ensures
        0 <= x < path.len(),
{
    let s = structural::scene(path, n);
    percent::lemma_reading(path, n);
    if exists|i: int| #[trigger]
        structural::starts_at(s.bytes, l.enc, i) && structural::class_at(s, l.enc, i) is Some
            && l.enabled.has(structural::class_at(s, l.enc, i)->Some_0) && s.sources[i] == x {
        let i = choose|i: int| #[trigger]
            structural::starts_at(s.bytes, l.enc, i) && structural::class_at(s, l.enc, i) is Some
                && l.enabled.has(structural::class_at(s, l.enc, i)->Some_0) && s.sources[i] == x;
        assert(0 <= i < s.bytes.len());
        assert(0 <= percent::reading(path, n).sources[i] < path.len());
    } else {
        let (a, b) = choose|a: int, b: int| #[trigger]
            structural::segment(s, l, a, b) && structural::dots_only(s, l, a, b) && s.sources[a]
                == x;
        structural::lemma_begin_is_start(s, l, a);
        assert(0 <= percent::reading(path, n).sources[a] < path.len());
    }
}

/// What stands for an ASCII character begins with no continuation byte.
proof fn lemma_first_byte(b: Seq<u8>, enc: structural::Encodings, i: int)
    requires
        0 <= i < b.len(),
        structural::face_at(b, enc, i) < 0x80,
    ensures
        !vstd::utf8::is_continuation_byte(b[i]),
{
}

/// The earliest occurrence in a text begins where one of its characters begins.
pub proof fn occurrences_begin_characters(path: Seq<u8>, l: Lens, r: ScanResult)
    requires
        vstd::utf8::valid_utf8(path),
        structural::describes_all(r, path, l),
        r.earliest is Some,
    ensures
        r.earliest->Some_0 < path.len(),
        vstd::utf8::is_char_boundary(path, r.earliest->Some_0 as int),
{
    let x = r.earliest->Some_0 as int;
    let n = choose|n: nat|
        n <= structural::last_pass(path, l.enc) && #[trigger] structural::occurs(
            structural::scene(path, n),
            l,
            x,
        );
    let s = structural::scene(path, n);
    percent::lemma_reading(path, n);
    lemma_occurs_within(path, l, n, x);
    if exists|i: int| #[trigger]
        structural::starts_at(s.bytes, l.enc, i) && structural::class_at(s, l.enc, i) is Some
            && l.enabled.has(structural::class_at(s, l.enc, i)->Some_0) && s.sources[i] == x {
        let i = choose|i: int| #[trigger]
            structural::starts_at(s.bytes, l.enc, i) && structural::class_at(s, l.enc, i) is Some
                && l.enabled.has(structural::class_at(s, l.enc, i)->Some_0) && s.sources[i] == x;
        lemma_first_byte(s.bytes, l.enc, i);
        percent::lemma_source_bytes(path, n, i);
    } else {
        let (a, b) = choose|a: int, b: int| #[trigger]
            structural::segment(s, l, a, b) && structural::dots_only(s, l, a, b) && s.sources[a]
                == x;
        structural::lemma_begin_is_start(s, l, a);
        lemma_first_byte(s.bytes, l.enc, a);
        percent::lemma_source_bytes(path, n, a);
    }
    vstd::utf8::is_char_boundary_iff_not_is_continuation_byte(path, x);
}

/// Decoding makes nothing longer.
proof fn lemma_no_longer(path: Seq<u8>, n: nat)
    ensures
        percent::decode_times(path, n).len() <= path.len(),
    decreases n,
{
    if n > 0 {
        lemma_no_longer(path, (n - 1) as nat);
        percent::lemma_offsets(percent::decode_times(path, (n - 1) as nat), 0);
    }
}

} // verus!
