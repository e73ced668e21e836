//! The guarantee: whatever a backend of the declared kind makes of an accepted path, it
//! selects the same rule.

use vstd::prelude::*;

use crate::agreement;
use crate::anchor;
use crate::climbing;
use crate::config::{GuardConfig, GuardMode, StructuralClass};
use crate::coverage;
use crate::guard;
use crate::guard::PathConfusionGuard;
use crate::percent;
use crate::rewriting;
use crate::rewriting::{Move, Parsing, State};
use crate::routing;
use crate::scan_laws;
use crate::structural;
use crate::structural::{Encodings, Lens, ScanResult, Scene};

verus! {

broadcast use {
    rewriting::lemma_escaped,
    rewriting::lemma_decoded,
    rewriting::lemma_spelling,
    rewriting::lemma_lowercased,
};

/// Whether the scanner looks for what a backend of this kind does.
pub open spec fn looks_for(l: Lens, p: Parsing) -> bool {
    &&& l.enabled.separator
    &&& l.enabled.dot_segment
    &&& l.enabled.param
    &&& l.enabled.truncation
    &&& l.enabled.backslash == p.backslash
    &&& l.enc == p.enc
}

/// More places, more climbs.
proof fn lemma_climb_order(s: Scene, l: Lens, a: nat, b: nat)
    requires
        a <= b,
    ensures
        structural::climb_count(s, l, a) <= structural::climb_count(s, l, b),
    decreases b,
{
    if a < b {
        lemma_climb_order(s, l, a, (b - 1) as nat);
    }
}

/// The characters `g` are those from `a` to `i`, as far as the first three go.
spec fn read_so_far(b: Seq<u8>, enc: Encodings, a: int, i: int, g: Seq<u8>) -> bool {
    let p1 = a + structural::width_at(b, enc, a);
    let p2 = p1 + structural::width_at(b, enc, p1);
    &&& g.len() == 0 <==> i == a
    &&& g.len() >= 1 ==> g[0] == structural::face_at(b, enc, a)
    &&& g.len() == 1 ==> i == p1
    &&& g.len() >= 2 ==> g[1] == structural::face_at(b, enc, p1) && p1 < i
    &&& g.len() == 2 ==> i == p2
    &&& g.len() >= 3 ==> g[2] == structural::face_at(b, enc, p2) && p2 < i
}

/// Reading on by one character.
proof fn lemma_faces_from(b: Seq<u8>, enc: Encodings, i: int)
    requires
        0 <= i < b.len(),
    ensures
        climbing::faces(b.skip(i), enc) == seq![structural::face_at(b, enc, i)] + climbing::faces(
            b.skip(i + structural::width_at(b, enc, i)),
            enc,
        ),
{
    let c = b.skip(i);
    climbing::lemma_width(c, enc, 0);
    climbing::lemma_width(b, enc, i);
    assert(forall|j: int| 0 <= j < c.len() ==> c[j] == b[i + j]);
    assert(structural::form_at(c, enc, 0) == structural::form_at(b, enc, i));
    let w = structural::width_at(b, enc, i);
    assert(c.skip(w) =~= b.skip(i + w));
}

/// Every dot-segment from `a` on is counted among the climbs from `a` on.
proof fn lemma_count_from(s: Scene, l: Lens, p: Parsing, a: int, i: int, g: Seq<u8>)
    requires
        looks_for(l, p),
        structural::begins(s, l, a),
        0 <= a <= i <= s.bytes.len(),
        i == s.bytes.len() || structural::starts_at(s.bytes, l.enc, i),
        forall|j: int| a <= j < i ==> !(#[trigger] structural::separates(s, l, j)),
        forall|j: int| 0 <= j < g.len() ==> !climbing::divides(#[trigger] g[j], p.backslash),
        read_so_far(s.bytes, l.enc, a, i, g),
    ensures
        structural::climb_count(s, l, a as nat) + climbing::dot_segs(
            g + climbing::faces(s.bytes.skip(i), p.enc),
            p.backslash,
        ) <= structural::climb_count(s, l, s.bytes.len() + 1),
    decreases s.bytes.len() - i,
{
    let b = s.bytes;
    let enc = l.enc;
    let len = b.len();
    if i == len {
        assert(b.skip(i).len() == 0);
        assert(g + climbing::faces(b.skip(i), p.enc) =~= g);
        lemma_own_segment(s, l, p, a, i, g);
        lemma_climb_order(s, l, a as nat, len);
    } else {
        let c = structural::face_at(b, enc, i);
        let w = structural::width_at(b, enc, i);
        structural::lemma_next_start(b, enc, i);
        lemma_faces_from(b, enc, i);
        let rest = climbing::faces(b.skip(i + w), p.enc);
        assert(g + climbing::faces(b.skip(i), p.enc) =~= g + seq![c] + rest);
        if climbing::divides(c, p.backslash) {
            assert(structural::separates(s, l, i));
            climbing::lemma_split_dots(g, c, rest, p.backslash);
            lemma_own_segment(s, l, p, a, i, g);
            lemma_climb_order(s, l, a as nat, i as nat);
            lemma_climb_order(s, l, (i + 1) as nat, (i + w) as nat);
            assert(structural::begins(s, l, i + w));
            let none = Seq::<u8>::empty();
            assert(none + rest =~= rest);
            lemma_count_from(s, l, p, i + w, i + w, none);
        } else {
            assert(!structural::separates(s, l, i));
            assert forall|j: int| a <= j < i + w implies !(#[trigger] structural::separates(
                s,
                l,
                j,
            )) by {
                if j > i {
                    assert(!structural::starts_at(b, enc, j));
                }
            }
            let h = g.push(c);
            assert(g + seq![c] + rest =~= h + rest);
            assert(read_so_far(b, enc, a, i + w, h));
            lemma_count_from(s, l, p, a, i + w, h);
        }
    }
}

/// A dot-segment that ends at `i` climbs there.
proof fn lemma_own_segment(s: Scene, l: Lens, p: Parsing, a: int, i: int, g: Seq<u8>)
    requires
        looks_for(l, p),
        structural::begins(s, l, a),
        0 <= a <= i <= s.bytes.len(),
        i == s.bytes.len() || structural::separates(s, l, i),
        forall|j: int| a <= j < i ==> !(#[trigger] structural::separates(s, l, j)),
        forall|j: int| 0 <= j < g.len() ==> !climbing::divides(#[trigger] g[j], p.backslash),
        read_so_far(s.bytes, l.enc, a, i, g),
    ensures
        structural::climb_count(s, l, i as nat) + climbing::dot_segs(g, p.backslash)
            <= structural::climb_count(s, l, (i + 1) as nat),
{
    climbing::lemma_whole_segment(g, p.backslash);
    if climbing::is_dots(g) {
        assert(structural::segment(s, l, a, i));
        assert(structural::dots_only(s, l, a, i));
        assert(structural::may_climb(s, l, a, i));
        assert(structural::climbs(s, l, i));
    }
}

/// The climbs of an interpretation bound its dot-segments.
proof fn lemma_climbs_bound(s: Scene, l: Lens, p: Parsing)
    requires
        looks_for(l, p),
    ensures
        climbing::dots(s.bytes, p) <= structural::climb_count(s, l, s.bytes.len() + 1),
{
    let none = Seq::<u8>::empty();
    let b = s.bytes;
    assert(b.skip(0) =~= b);
    assert(none + climbing::faces(b, p.enc) =~= climbing::faces(b, p.enc));
    if b.len() > 0 {
        assert(structural::starts_at(b, l.enc, 0));
    }
    lemma_count_from(s, l, p, 0, 0, none);
}

/// An ASCII byte is a character of its own, and so is an alternate spelling.
pub proof fn lemma_starts(b: Seq<u8>, enc: Encodings, i: int)
    requires
        0 <= i < b.len(),
        b[i] < 0x80 || structural::form_at(b, enc, i) is Some,
    ensures
        structural::starts_at(b, enc, i),
        b[i] < 0x80 ==> structural::face_at(b, enc, i) == b[i] && structural::width_at(b, enc, i)
            == 1,
{
    assert(b[i] < 0x80 || b[i] >= 0xC0);
    if structural::width_at(b, enc, i - 1) > 1 || structural::width_at(b, enc, i - 2) > 2
        || structural::width_at(b, enc, i - 3) > 3 {
        assert(0x80 <= b[i] < 0xC0);
    }
}

/// A slash that follows a slash is a separator.
pub proof fn lemma_doubled(s: Scene, enc: Encodings, i: int)
    requires
        0 < i < s.bytes.len(),
        s.bytes[i - 1] == 0x2F,
        s.bytes[i] == 0x2F,
    ensures
        structural::starts_at(s.bytes, enc, i),
        structural::class_at(s, enc, i) == Some(StructuralClass::Separator),
{
    lemma_starts(s.bytes, enc, i - 1);
    lemma_starts(s.bytes, enc, i);
    assert(structural::starts_at(s.bytes, enc, i - 1));
    assert(structural::follows_slash(s.bytes, enc, i));
}

/// The class of a spelling that a backend reads.
proof fn lemma_spelled_class(s: Scene, l: Lens, p: Parsing, i: int)
    requires
        looks_for(l, p),
        agreement::spelled_at(s.bytes, p, i),
    ensures
        structural::starts_at(s.bytes, l.enc, i),
        structural::class_at(s, l.enc, i) is Some,
        l.enabled.has(structural::class_at(s, l.enc, i)->Some_0),
{
    assert(0 <= i < s.bytes.len());
    lemma_starts(s.bytes, l.enc, i);
    let (b, width) = structural::form_at(s.bytes, l.enc, i)->Some_0;
    assert(b == 0x2F || b == 0x2E || b == 0x3B || b == 0x5C);
    assert(structural::coded_at(s, l.enc, i));
}

/// The class of a plain byte that a backend reacts to.
pub proof fn lemma_plain_class(s: Scene, l: Lens, p: Parsing, i: int)
    requires
        looks_for(l, p),
        0 <= i < s.bytes.len(),
        s.bytes[i] == 0x3B || s.bytes[i] == 0 || (p.backslash && s.bytes[i] == 0x5C),
    ensures
        structural::starts_at(s.bytes, l.enc, i),
        structural::class_at(s, l.enc, i) is Some,
        l.enabled.has(structural::class_at(s, l.enc, i)->Some_0),
        s.bytes[i] == 0 ==> structural::class_at(s, l.enc, i) == Some(
            StructuralClass::NulTruncation,
        ),
{
    lemma_starts(s.bytes, l.enc, i);
}

/// A dot-segment between slashes, or between a slash and the end.
pub proof fn lemma_dot_segment(s: Scene, l: Lens, p: Parsing, a: int, b: int)
    requires
        looks_for(l, p),
        rewriting::after_slash(s.bytes, a),
        a < b <= s.bytes.len(),
        b == a + 1 || b == a + 2,
        s.bytes[a] == 0x2E,
        b == a + 2 ==> s.bytes[a + 1] == 0x2E,
        rewriting::before_slash(s.bytes, b),
    ensures
        structural::segment(s, l, a, b),
        structural::dots_only(s, l, a, b),
{
    let bytes = s.bytes;
    lemma_starts(bytes, l.enc, a - 1);
    lemma_starts(bytes, l.enc, a);
    assert(structural::separates(s, l, a - 1));
    assert(structural::begins(s, l, a));
    if b < bytes.len() {
        lemma_starts(bytes, l.enc, b);
        assert(structural::separates(s, l, b));
    }
    if b == a + 2 {
        lemma_starts(bytes, l.enc, a + 1);
    }
    assert forall|j: int| a <= j < b implies !(#[trigger] structural::separates(s, l, j)) by {
        assert(j == a || j == a + 1);
    }
}

/// Up to the bound, nothing of a path is to be rewritten.
proof fn lemma_anchor_pristine(path: Seq<u8>, l: Lens, p: Parsing, e: int)
    requires
        looks_for(l, p),
        path.len() > 0,
        path[0] == 0x2F,
        0 <= e <= path.len(),
        forall|x: int| #[trigger]
            structural::occurs(structural::scene(path, 0), l, x) ==> e <= x,
    ensures
        ({
            let q = anchor::through_slash(path.take(anchor::bound(path, p.fold, e)));
            agreement::pristine(q, p) && q.len() <= path.len() && q == path.take(q.len() as int)
        }),
{
    let s = structural::scene(path, 0);
    let b = anchor::bound(path, p.fold, e);
    anchor::lemma_content_from(path, p.fold, 0);
    let front = path.take(b);
    let q = anchor::through_slash(front);
    anchor::lemma_through_slash(front);
    let n = q.len() as int;
    if b == 0 {
        assert(front =~= Seq::<u8>::empty());
        assert(q =~= anchor::root());
        assert(path.take(1) =~= anchor::root());
        lemma_root_pristine(p);
    } else {
        assert(front[0] == 0x2F);
        assert(q == front.take(n));
        assert(front.take(n) =~= path.take(n));
        assert(n <= b <= e);
        assert(forall|i: int| 0 <= i < n ==> q[i] == path[i]);
        assert(s.bytes == path);
        assert(forall|i: int| 0 <= i < path.len() ==> s.sources[i] == i);
        assert forall|i: int| 0 <= i < n implies {
            &&& #[trigger] q[i] != 0x25
            &&& q[i] != 0
            &&& q[i] != 0x3B
            &&& !(p.backslash && q[i] == 0x5C)
            &&& !(p.fold && 0x41 <= q[i] <= 0x5A)
        } by {
            assert(!anchor::rewritable(path[i], p.fold));
            if q[i] == 0 || q[i] == 0x3B || (p.backslash && q[i] == 0x5C) {
                lemma_plain_class(s, l, p, i);
                assert(structural::occurs(s, l, i));
            }
        }
        assert forall|i: int| #![trigger q[i]] 0 < i < n implies !(q[i - 1] == 0x2F && q[i]
            == 0x2F) by {
            if q[i - 1] == 0x2F && q[i] == 0x2F {
                assert(path[i - 1] == 0x2F && path[i] == 0x2F);
                lemma_doubled(s, l.enc, i);
                assert(structural::occurs(s, l, i));
            }
        }
        assert forall|i: int| !(#[trigger] agreement::dots_at(q, i)) by {
            if agreement::dots_at(q, i) {
                let end = if q[i + 1] == 0x2F {
                    i + 1
                } else {
                    i + 2
                };
                assert(path[i - 1] == q[i - 1] && path[i] == q[i] && path[i + 1] == q[i + 1]);
                assert(path[end] == q[end]);
                lemma_dot_segment(s, l, p, i, end);
                assert(structural::occurs(s, l, i));
            }
        }
        assert forall|i: int| !(#[trigger] agreement::spelled_at(q, p, i)) by {
            if agreement::spelled_at(q, p, i) {
                agreement::lemma_form_within(path, n, p, i);
                assert(agreement::spelled_at(s.bytes, p, i));
                lemma_spelled_class(s, l, p, i);
                assert(structural::occurs(s, l, i));
            }
        }
    }
}

/// The root is pristine.
proof fn lemma_root_pristine(p: Parsing)
    ensures
        agreement::pristine(anchor::root(), p),
{
    let q = anchor::root();
    assert forall|i: int| !(#[trigger] agreement::dots_at(q, i)) by {}
    assert forall|i: int| !(#[trigger] agreement::spelled_at(q, p, i)) by {}
}

/// The interpretation that a number of passes comes to, among those that change anything.
pub proof fn lemma_settled(s: Seq<u8>, limit: nat, n: nat) -> (m: nat)
    requires
        n <= limit,
    ensures
        m <= percent::effective_passes(s, limit),
        m <= n,
        percent::decode_times(s, n) == percent::decode_times(s, m),
    decreases limit,
{
    if n == 0 {
        0
    } else if !percent::has_escape(s) {
        lemma_fixed(s, n);
        0
    } else {
        let m = lemma_settled(percent::decode(s), (limit - 1) as nat, (n - 1) as nat);
        agreement::lemma_decode_first(s, (n - 1) as nat);
        agreement::lemma_decode_first(s, m);
        m + 1
    }
}

/// Without an escape no pass changes anything.
pub proof fn lemma_fixed(s: Seq<u8>, n: nat)
    requires
        !percent::has_escape(s),
    ensures
        percent::decode_times(s, n) == s,
    decreases n,
{
    if n > 0 {
        lemma_fixed(s, (n - 1) as nat);
        percent::decode_fixed_point(s);
    }
}

/// What is found of a path bounds the dot-segments that it can turn out to have, and tells
/// of every NUL.
proof fn lemma_found(path: Seq<u8>, l: Lens, p: Parsing, found: ScanResult, limit: nat, n: nat)
    requires
        looks_for(l, p),
        structural::describes_all(found, path, l),
        limit == percent::pass_limit(l.enc.double_decode),
        n <= limit,
    ensures
        climbing::dots(percent::decode_times(path, n), p) <= found.dot_pops,
        percent::decode_times(path, n).contains(0) ==> found.classes.truncation,
{
    let m = lemma_settled(path, limit, n);
    let s = structural::scene(path, m);
    percent::lemma_reading(path, m);
    lemma_climbs_bound(s, l, p);
    assert(structural::climbs_in(path, l, m) <= found.dot_pops);
    if s.bytes.contains(0) {
        let i = s.bytes.index_of(0);
        lemma_plain_class(s, l, p, i);
        assert(structural::carries(s, l, StructuralClass::NulTruncation));
        assert(found.classes.has(StructuralClass::NulTruncation));
    }
}

/// A path without `%` stays as it is.
pub proof fn lemma_no_percent(q: Seq<u8>, n: nat)
    requires
        !q.contains(0x25),
    ensures
        percent::decode_times(q, n) == q,
{
    assert forall|i: int| 0 <= i < q.len() implies (#[trigger] percent::escape_at(q, i)) is None by {
        assert(q.contains(q[i]));
    }
    lemma_fixed(q, n);
}

/// A flagged path is on track before any move.
proof fn lemma_start(path: Seq<u8>, l: Lens, p: Parsing, found: ScanResult, limit: nat)
    requires
        looks_for(l, p),
        path.len() > 0,
        path[0] == 0x2F,
        structural::describes_all(found, path, l),
        limit == percent::pass_limit(l.enc.double_decode),
        found.earliest is Some,
        found.earliest->Some_0 <= path.len(),
        !found.classes.truncation,
    ensures
        ({
            let q = anchor::through_slash(
                path.take(anchor::bound(path, p.fold, found.earliest->Some_0 as int)),
            );
            agreement::pristine(q, p) && agreement::on_track(
                q,
                found.dot_pops as nat,
                p,
                State { bytes: path, passes: limit },
                0,
                path.skip(q.len() as int),
            )
        }),
{
    let e = found.earliest->Some_0 as int;
    assert forall|x: int| #[trigger] structural::occurs(structural::scene(path, 0), l, x) implies e
        <= x by {
        assert(0 <= structural::last_pass(path, l.enc));
    }
    lemma_anchor_pristine(path, l, p, e);
    let q = anchor::through_slash(path.take(anchor::bound(path, p.fold, e)));
    let t = path.skip(q.len() as int);
    assert(path =~= q + t);
    let k = found.dot_pops as int;
    assert forall|n: nat| n <= limit implies {
        &&& climbing::dots(#[trigger] percent::decode_times(t, n), p) <= k
        &&& !percent::decode_times(t, n).contains(0)
    } by {
        lemma_found(path, l, p, found, limit, n);
        climbing::lemma_split_times(q, t, n);
        assert(!q.contains(0x25)) by {
            if q.contains(0x25) {
                let i = q.index_of(0x25);
                assert(q[i] != 0x25);
            }
        }
        lemma_no_percent(q, n);
        let d = percent::decode_times(t, n);
        climbing::lemma_slashed(q, d, p);
        if d.contains(0) {
            let i = d.index_of(0);
            assert((q + d)[q.len() + i] == 0);
        }
    }
}

/// A pristine prefix is what its segments spell.
pub proof fn lemma_spelled_out(q: Seq<u8>, t: Seq<u8>, p: Parsing)
    requires
        agreement::pristine(q, p),
    ensures
        coverage::plain(routing::anchor_segments(q)),
        q + t == seq![0x2Fu8] + coverage::extend(routing::anchor_segments(q), t),
{
    let body = q.skip(1);
    routing::lemma_next_slash(q, 0);
    assert(routing::next_slash(q, 0) == 0);
    assert(routing::rest(q) =~= body);
    assert(routing::head(q) =~= Seq::<u8>::empty());
    assert forall|i: int| #![trigger body[i]] 0 < i < body.len() implies !(body[i - 1] == 0x2F
        && body[i] == 0x2F) by {
        assert(q[i + 1] == body[i]);
    }
    if body.len() > 0 {
        assert(body.last() == q.last());
        assert(body[0] != 0x2F) by {
            assert(q[1] == body[0]);
        }
    }
    lemma_body(body, t);
    assert(q + t =~= seq![0x2Fu8] + (body + t));
}

proof fn lemma_body(body: Seq<u8>, t: Seq<u8>)
    requires
        body.len() > 0 ==> body.last() == 0x2F && body[0] != 0x2F,
        forall|i: int|
            #![trigger body[i]]
            0 < i < body.len() ==> !(body[i - 1] == 0x2F && body[i] == 0x2F),
    ensures
        coverage::plain(routing::anchor_segments(body)),
        body + t == coverage::extend(routing::anchor_segments(body), t),
    decreases body.len(),
{
    if body.len() == 0 {
        assert(body + t =~= t);
    } else {
        routing::lemma_next_slash(body, 0);
        let k = routing::next_slash(body, 0);
        assert(k < body.len()) by {
            if k == body.len() {
                assert(body[body.len() - 1] != 0x2F);
            }
        }
        assert(k > 0);
        let head = routing::head(body);
        let rest = routing::rest(body);
        assert forall|i: int| #![trigger rest[i]] 0 < i < rest.len() implies !(rest[i - 1] == 0x2F
            && rest[i] == 0x2F) by {
            assert(body[k + 1 + i] == rest[i]);
            assert(body[k + i] == rest[i - 1]);
        }
        if rest.len() > 0 {
            assert(rest.last() == body.last());
            assert(rest[0] != 0x2F) by {
                assert(body[k + 1] == rest[0]);
            }
        }
        lemma_body(rest, t);
        let segs = routing::anchor_segments(body);
        let more = routing::anchor_segments(rest);
        assert(segs == seq![head] + more);
        assert(!head.contains(0x2F)) by {
            if head.contains(0x2F) {
                let i = head.index_of(0x2F);
                assert(body[i] != 0x2F);
            }
        }
        assert forall|i: int| 0 <= i < segs.len() implies coverage::plain_segment(#[trigger] segs[i]) by {
            if i > 0 {
                assert(segs[i] == more[i - 1]);
            }
        }
        assert(segs.skip(1) =~= more);
        assert(body =~= head + seq![0x2Fu8] + rest);
        assert(body + t =~= head + seq![0x2Fu8] + (rest + t));
    }
}

/// Whether no interpretation of a path carries what the scanner looks for.
spec fn silent(path: Seq<u8>, l: Lens) -> bool {
    forall|n: nat, class: StructuralClass|
        n <= structural::last_pass(path, l.enc) && l.enabled.has(class) ==> !(
        #[trigger] structural::carries(structural::scene(path, n), l, class))
}

/// Whether a path under way is what decoding alone makes of the path, up to case.
spec fn decoded_only(path: Seq<u8>, l: Lens, p: Parsing, state: State, n: nat) -> bool {
    let limit = percent::pass_limit(l.enc.double_decode);
    &&& n + state.passes == limit
    &&& climbing::alike(state.bytes, percent::decode_times(path, n))
    &&& !p.fold ==> state.bytes == percent::decode_times(path, n)
}

/// On a path that carries nothing no other move applies.
proof fn lemma_silent_move(
    path: Seq<u8>,
    l: Lens,
    p: Parsing,
    state: State,
    step: Move,
    n: nat,
) -> (m:
    nat)
    requires
        looks_for(l, p),
        silent(path, l),
        decoded_only(path, l, p, state, n),
        rewriting::moved(p, state, step) is Some,
    ensures
        decoded_only(path, l, p, rewriting::moved(p, state, step)->Some_0, m),
{
    let next = rewriting::moved(p, state, step)->Some_0;
    let d = percent::decode_times(path, n);
    match step {
        Move::Decode => {
            climbing::lemma_alike_decode(state.bytes, d);
            n + 1
        },
        Move::Lower { at } => {
            assert forall|i: int| 0 <= i < next.bytes.len() implies anchor::lower(
                #[trigger] next.bytes[i],
            ) == anchor::lower(d[i]) by {
                assert(anchor::lower(state.bytes[i]) == anchor::lower(d[i]));
            }
            n
        },
        _ => {
            lemma_silent_place(path, l, p, state, step, n);
            n
        },
    }
}

/// A pass that finds an escape is among those that change anything.
pub proof fn lemma_pass_counts(s: Seq<u8>, limit: nat, n: nat)
    requires
        n < limit,
        percent::has_escape(percent::decode_times(s, n)),
    ensures
        n + 1 <= percent::effective_passes(s, limit),
    decreases n,
{
    if n > 0 {
        if !percent::has_escape(s) {
            lemma_fixed(s, n);
        }
        agreement::lemma_decode_first(s, (n - 1) as nat);
        lemma_pass_counts(percent::decode(s), (limit - 1) as nat, (n - 1) as nat);
    }
}

/// Where the byte of an escape ends up, and where it comes from.
pub proof fn lemma_escape_place(s: Seq<u8>, base: int, at: int) -> (i: int)
    requires
        percent::escape_at(s, at) is Some,
    ensures
        0 <= i < percent::decode(s).len(),
        percent::decode(s)[i] == percent::escape_at(s, at)->Some_0,
        percent::decode_offsets(s, base)[i] == base + at,
    decreases s.len(),
{
    percent::lemma_offsets(s, base);
    if at == 0 {
        0
    } else {
        let w: int = if percent::escape_at(s, 0) is Some {
            3
        } else {
            1
        };
        assert(at >= w);
        let rest = s.skip(w);
        assert(percent::escape_at(rest, at - w) == percent::escape_at(s, at));
        let i = lemma_escape_place(rest, base + w, at - w);
        percent::lemma_offsets(rest, base + w);
        assert(percent::decode(s)[i + 1] == percent::decode(rest)[i]);
        i + 1
    }
}

/// A `%` comes from a `%`.
proof fn lemma_percent_source(s: Seq<u8>, base: int, i: int)
    requires
        0 <= i < percent::decode(s).len(),
        percent::decode(s)[i] == 0x25,
    ensures
        0 <= percent::decode_offsets(s, base)[i] - base < s.len(),
        s[percent::decode_offsets(s, base)[i] - base] == 0x25,
    decreases s.len(),
{
    percent::lemma_offsets(s, base);
    if i > 0 {
        let w: int = if percent::escape_at(s, 0) is Some {
            3
        } else {
            1
        };
        let rest = s.skip(w);
        percent::lemma_offsets(rest, base + w);
        assert(percent::decode(s)[i] == percent::decode(rest)[i - 1]);
        lemma_percent_source(rest, base + w, i - 1);
        assert(percent::decode_offsets(s, base)[i] == percent::decode_offsets(rest, base + w)[i - 1]);
    }
}

/// So it does after any number of passes.
pub proof fn lemma_percent_origin(path: Seq<u8>, n: nat, i: int)
    requires
        0 <= i < percent::reading(path, n).bytes.len(),
        percent::reading(path, n).bytes[i] == 0x25,
    ensures
        path[percent::reading(path, n).sources[i]] == 0x25,
    decreases n,
{
    if n > 0 {
        let before = percent::reading(path, (n - 1) as nat);
        percent::lemma_offsets(before.bytes, 0);
        lemma_percent_source(before.bytes, 0, i);
        lemma_percent_origin(path, (n - 1) as nat, percent::decode_offsets(before.bytes, 0)[i]);
    }
}

/// The escape of a structural byte carries something after the next pass.
proof fn lemma_silent_escape(path: Seq<u8>, l: Lens, p: Parsing, state: State, at: int, n: nat)
    requires
        looks_for(l, p),
        silent(path, l),
        decoded_only(path, l, p, state, n),
    ensures
        rewriting::moved(p, state, Move::Unescape { at }) is None,
{
    let limit = percent::pass_limit(l.enc.double_decode);
    let b = state.bytes;
    let d = percent::decode_times(path, n);
    if rewriting::moved(p, state, Move::Unescape { at }) is Some {
        let c = percent::escape_at(b, at)->Some_0;
        assert(anchor::lower(b[at]) == anchor::lower(d[at]));
        assert(anchor::lower(b[at + 1]) == anchor::lower(d[at + 1]));
        assert(anchor::lower(b[at + 2]) == anchor::lower(d[at + 2]));
        assert(percent::escape_at(d, at) == Some(c));
        lemma_pass_counts(path, limit, n);
        let m = n + 1;
        let s = structural::scene(path, m);
        percent::lemma_reading(path, n);
        percent::lemma_reading(path, m);
        let i = lemma_escape_place(d, 0, at);
        lemma_percent_origin(path, n, at);
        percent::lemma_offsets(d, 0);
        assert(s.bytes[i] == c);
        assert(s.sources[i] == percent::reading(path, n).sources[at]);
        assert(s.escaped[i]);
        lemma_starts(s.bytes, l.enc, i);
        let class = structural::class_at(s, l.enc, i);
        assert(class is Some && l.enabled.has(class->Some_0));
        assert(structural::carries(s, l, class->Some_0));
    }
}

/// The places at which the other moves apply carry something.
proof fn lemma_silent_place(path: Seq<u8>, l: Lens, p: Parsing, state: State, step: Move, n: nat)
    requires
        looks_for(l, p),
        silent(path, l),
        decoded_only(path, l, p, state, n),
        !(step is Decode),
        !(step is Lower),
    ensures
        rewriting::moved(p, state, step) is None,
{
    if let Move::Unescape { at } = step {
        lemma_silent_escape(path, l, p, state, at, n);
    }
    let limit = percent::pass_limit(l.enc.double_decode);
    let b = state.bytes;
    let d = percent::decode_times(path, n);
    let m = lemma_settled(path, limit, n);
    let s = structural::scene(path, m);
    percent::lemma_reading(path, m);
    assert(s.bytes == d);
    assert(forall|i: int|
        0 <= i < b.len() ==> anchor::lower(#[trigger] b[i]) == anchor::lower(d[i]));
    if rewriting::moved(p, state, step) is Some {
        match step {
            Move::Merge { at } => {
                assert(b[at - 1] == 0x2F && b[at] == 0x2F);
                lemma_doubled(s, l.enc, at);
                assert(structural::carries(s, l, StructuralClass::Separator));
            },
            Move::Strip { at, .. } => {
                assert(b[at] == 0x3B);
                lemma_plain_class(s, l, p, at);
                assert(structural::carries(s, l, structural::class_at(s, l.enc, at)->Some_0));
            },
            Move::Stay { at } => {
                assert(b[at - 1] == 0x2F && b[at] == 0x2E);
                assert(at + 1 < b.len() ==> b[at + 1] == 0x2F);
                lemma_dot_segment(s, l, p, at, at + 1);
                assert(structural::carries(s, l, StructuralClass::DotSegment));
            },
            Move::Climb { at } => {
                assert(b[at - 1] == 0x2F && b[at] == 0x2E && b[at + 1] == 0x2E);
                assert(at + 2 < b.len() ==> b[at + 2] == 0x2F);
                lemma_dot_segment(s, l, p, at, at + 2);
                assert(structural::carries(s, l, StructuralClass::DotSegment));
            },
            Move::Backslash { at } => {
                assert(b[at] == 0x5C);
                lemma_plain_class(s, l, p, at);
                assert(structural::carries(s, l, structural::class_at(s, l.enc, at)->Some_0));
            },
            Move::Spell { at } => {
                climbing::lemma_alike_form(b, d, p.enc, at);
                lemma_spelled_class(s, l, p, at);
                assert(structural::carries(s, l, structural::class_at(s, l.enc, at)->Some_0));
            },
            Move::Truncate { at } => {
                assert(b[at] == 0);
                lemma_plain_class(s, l, p, at);
                assert(structural::carries(s, l, StructuralClass::NulTruncation));
            },
            _ => {},
        }
    }
}

/// A path that carries nothing is decoded and lowercased only.
proof fn lemma_silent_moves(path: Seq<u8>, l: Lens, p: Parsing, moves: Seq<Move>) -> (n: nat)
    requires
        looks_for(l, p),
        silent(path, l),
        rewriting::after(
            p,
            State { bytes: path, passes: percent::pass_limit(l.enc.double_decode) },
            moves,
        ) is Some,
    ensures
        decoded_only(
            path,
            l,
            p,
            rewriting::after(
                p,
                State { bytes: path, passes: percent::pass_limit(l.enc.double_decode) },
                moves,
            )->Some_0,
            n,
        ),
    decreases moves.len(),
{
    let start = State { bytes: path, passes: percent::pass_limit(l.enc.double_decode) };
    if moves.len() == 0 {
        0
    } else {
        let n = lemma_silent_moves(path, l, p, moves.drop_last());
        let state = rewriting::after(p, start, moves.drop_last())->Some_0;
        lemma_silent_move(path, l, p, state, moves.last(), n)
    }
}

/// Paths that are alike fold to the same.
proof fn lemma_alike_folds(a: Seq<u8>, b: Seq<u8>)
    requires
        climbing::alike(a, b),
    ensures
        anchor::folded(a) == anchor::folded(b),
{
    assert forall|i: int| 0 <= i < a.len() implies anchor::folded(a)[i] == anchor::folded(b)[i] by {
        assert(anchor::lower(a[i]) == anchor::lower(b[i]));
    }
    assert(anchor::folded(a) =~= anchor::folded(b));
}

/// The behaviors of a backend that the guard is configured for.
pub open spec fn declared(guard: PathConfusionGuard) -> Parsing {
    Parsing { backslash: guard.enabled.backslash, enc: guard.enc, fold: guard.case_insensitive }
}

/// Where such a backend starts: the path as received, and the declared decode passes.
pub open spec fn received(guard: PathConfusionGuard, path: Seq<u8>) -> State {
    State { bytes: path, passes: percent::pass_limit(guard.enc.double_decode) }
}

/// The default mode, on a path that carries nothing.
proof fn lemma_unflagged_keeps(
    guard: PathConfusionGuard,
    path: Seq<u8>,
    method: http::Method,
    moves: Seq<Move>,
)
    requires
        looks_for(guard.lens(), declared(guard)),
        silent(path, guard.lens()),
        guard.fold_denial(path, method) is None,
        guard.decode_denial(path, method) is None,
        rewriting::after(declared(guard), received(guard, path), moves) is Some,
    ensures
        guard.raw(
            guard::routed(
                rewriting::after(declared(guard), received(guard, path), moves)->Some_0.bytes,
                guard.case_insensitive,
            ),
            method,
        ) == guard.raw(path, method),
{
    let p = declared(guard);
    let state = rewriting::after(p, received(guard, path), moves)->Some_0;
    let n = lemma_silent_moves(path, guard.lens(), p, moves);
    let d = percent::decode_times(path, n);
    lemma_alike_folds(state.bytes, d);
    assert(guard::routed(state.bytes, guard.case_insensitive) == guard::routed(
        d,
        guard.case_insensitive,
    ));
    if !path.contains(0x25) {
        lemma_no_percent(path, n);
    }
    if d == path || n == 0 {
        if guard.case_insensitive && !anchor::has_upper(path) {
            assert(anchor::folded(path) =~= path);
        }
    } else {
        assert(guard.decodes_in_place(path, n, method));
    }
}

/// The strict mode, on a path that carries nothing and has no escape.
proof fn lemma_canonical_keeps(
    guard: PathConfusionGuard,
    path: Seq<u8>,
    method: http::Method,
    moves: Seq<Move>,
)
    requires
        looks_for(guard.strict_lens(), declared(guard)),
        silent(path, guard.strict_lens()),
        guard.case_insensitive ==> guard.enabled.case,
        !percent::has_escape(path),
        rewriting::after(declared(guard), received(guard, path), moves) is Some,
    ensures
        guard::routed(
            rewriting::after(declared(guard), received(guard, path), moves)->Some_0.bytes,
            guard.case_insensitive,
        ) == path,
{
    let p = declared(guard);
    let l = guard.strict_lens();
    let state = rewriting::after(p, received(guard, path), moves)->Some_0;
    let n = lemma_silent_moves(path, l, p, moves);
    lemma_fixed(path, n);
    lemma_alike_folds(state.bytes, path);
    if guard.case_insensitive {
        let s = structural::scene(path, 0);
        if anchor::has_upper(path) {
            let i = choose|i: int| 0 <= i < path.len() && 0x41 <= #[trigger] path[i] <= 0x5A;
            lemma_starts(s.bytes, l.enc, i);
            assert(structural::class_at(s, l.enc, i) == Some(StructuralClass::Uppercase));
            assert(structural::carries(s, l, StructuralClass::Uppercase));
        }
        assert(anchor::folded(path) =~= path);
    }
}

/// The default mode, on a flagged path: it keeps its anchor.
proof fn lemma_flagged_keeps(
    guard: PathConfusionGuard,
    path: Seq<u8>,
    moves: Seq<Move>,
) -> (t: Seq<u8>)
    requires
        looks_for(guard.lens(), declared(guard)),
        path.len() > 0,
        path[0] == 0x2F,
        structural::describes_all(structural::survey(path, guard.lens()), path, guard.lens()),
        !guard.flagged(path).is_void(),
        !guard.flagged(path).truncation,
        rewriting::after(declared(guard), received(guard, path), moves) is Some,
    ensures
        agreement::pristine(guard.anchor(path), declared(guard)),
        rewriting::after(declared(guard), received(guard, path), moves)->Some_0.bytes
            == guard.anchor(path) + t,
{
    let p = declared(guard);
    let l = guard.lens();
    let found = structural::survey(path, l);
    guard::lemma_flagged_offset(path, l);
    lemma_start(path, l, p, found, percent::pass_limit(l.enc.double_decode));
    let q = anchor::through_slash(
        path.take(anchor::bound(path, p.fold, found.earliest->Some_0 as int)),
    );
    let k = found.dot_pops as nat;
    let state = rewriting::after(p, received(guard, path), moves)->Some_0;
    let (r, u) = agreement::lemma_moves(
        q,
        k,
        p,
        received(guard, path),
        moves,
        path.skip(q.len() as int),
    );
    assert(climbing::dots(percent::decode_times(u, 0), p) <= k - r);
    assert(r <= k);
    let a = anchor::raised(q, r);
    let full = agreement::lemma_raised(q, r);
    agreement::lemma_shorter_pristine(q, full, p);
    let left = agreement::lemma_raised(a, (k - r) as nat);
    agreement::lemma_raised_more(q, r, (k - r) as nat);
    agreement::lemma_shorter_pristine(a, left, p);
    assert(guard.anchor(path) == a.take(left));
    let t = a.skip(left) + u;
    assert(a + u =~= a.take(left) + t);
    t
}

/// What extends the anchor is among the outcomes past it, as it is and lowercased where case
/// is folded.
proof fn lemma_anchored_outcome(
    guard: PathConfusionGuard,
    q: Seq<u8>,
    t: Seq<u8>,
    method: http::Method,
)
    requires
        agreement::pristine(q, declared(guard)),
    ensures
        routing::anchored(guard.router.slots(), routing::anchor_segments(q), method).contains(
            guard.raw(guard::routed(q + t, guard.case_insensitive), method),
        ),
        routing::anchored(guard.router.slots(), routing::anchor_segments(q), method).contains(
            guard.raw(q + t, method),
        ),
{
    let u = guard::routed(t, guard.case_insensitive);
    if guard.case_insensitive {
        assert(anchor::folded(q + t) =~= q + u);
    }
    lemma_spelled_out(q, u, declared(guard));
    lemma_spelled_out(q, t, declared(guard));
    coverage::anchored_outcomes_are_sound(
        guard.router.slots(),
        routing::anchor_segments(q),
        u,
        method,
    );
    coverage::anchored_outcomes_are_sound(
        guard.router.slots(),
        routing::anchor_segments(q),
        t,
        method,
    );
}

/// A request for the server as a whole stays what it is.
proof fn lemma_star_stays(p: Parsing, start: State, moves: Seq<Move>)
    requires
        start.bytes == seq![0x2Au8],
        rewriting::after(p, start, moves) is Some,
    ensures
        rewriting::after(p, start, moves)->Some_0.bytes == seq![0x2Au8],
    decreases moves.len(),
{
    if moves.len() > 0 {
        lemma_star_stays(p, start, moves.drop_last());
        let state = rewriting::after(p, start, moves.drop_last())->Some_0;
        let s = state.bytes;
        assert(forall|i: int| 0 <= i < s.len() ==> s[i] == 0x2A);
        assert forall|i: int| 0 <= i < s.len() implies (#[trigger] percent::escape_at(s, i)) is None by {
            assert(s[i] == 0x2A);
        }
        percent::decode_fixed_point(s);
        if let Move::Spell { at } = moves.last() {
            assert(structural::form_at(s, p.enc, at) is None);
        }
        if let Move::Lower { at } = moves.last() {
            assert(s.update(at, anchor::lower(s[at])) =~= s);
        }
    }
}

/// Where the survey of a path has no enabled class, no interpretation carries one.
proof fn lemma_void_is_silent(path: Seq<u8>, l: Lens)
    requires
        structural::describes_all(structural::survey(path, l), path, l),
        structural::survey(path, l).classes.meet(l.enabled).is_void(),
    ensures
        silent(path, l),
{
    let found = structural::survey(path, l);
    assert forall|n: nat, class: StructuralClass|
        n <= structural::last_pass(path, l.enc) && l.enabled.has(class) implies !(
    #[trigger] structural::carries(structural::scene(path, n), l, class)) by {
        assert(!found.classes.meet(l.enabled).has(class));
        assert(!found.classes.has(class));
    }
}

/// Whatever moves a backend of the declared kind makes of a flagged path, and in whatever
/// order, what it ends up with still begins with the anchor.
pub proof fn anchors_are_invariant(
    guard: PathConfusionGuard,
    config: GuardConfig,
    path: Seq<u8>,
    moves: Seq<Move>,
)
    requires
        guard.configured(config),
        0 < path.len() < usize::MAX,
        path[0] == 0x2F,
        guard.anchors(path),
        rewriting::after(declared(guard), received(guard, path), moves) is Some,
    ensures
        guard.anchor(path).is_prefix_of(
            rewriting::after(declared(guard), received(guard, path), moves)->Some_0.bytes,
        ),
{
    scan_laws::every_path_has_a_survey(path, guard.lens());
    let t = lemma_flagged_keeps(guard, path, moves);
    assert((guard.anchor(path) + t).take(guard.anchor(path).len() as int) =~= guard.anchor(path));
}

/// The guarantee. Where the built-in checks of an active mode accept a request, every path
/// that a backend of the declared kind can make of it selects what the path selects as
/// received: the same registration, the default, or the same refusal of the method.
pub proof fn accepted_requests_keep_their_rule(
    guard: PathConfusionGuard,
    config: GuardConfig,
    path: Seq<u8>,
    method: http::Method,
    moves: Seq<Move>,
)
    requires
        guard.configured(config),
        guard.mode != GuardMode::Disabled,
        0 < path.len() < usize::MAX,
        path[0] == 0x2F || path == seq![0x2Au8],
        guard.builtin_denial(path, method) is None,
        rewriting::after(declared(guard), received(guard, path), moves) is Some,
    ensures
        guard.raw(
            guard::routed(
                rewriting::after(declared(guard), received(guard, path), moves)->Some_0.bytes,
                guard.case_insensitive,
            ),
            method,
        ) == guard.raw(path, method),
{
    let p = declared(guard);
    let state = rewriting::after(p, received(guard, path), moves)->Some_0;
    if path == seq![0x2Au8] {
        lemma_star_stays(p, received(guard, path), moves);
        assert(anchor::folded(path) =~= path);
    } else if guard.mode == GuardMode::RequireCanonical {
        let l = guard.strict_lens();
        scan_laws::every_path_has_a_survey(path, l);
        lemma_void_is_silent(path, l);
        lemma_canonical_keeps(guard, path, method, moves);
    } else {
        let l = guard.lens();
        scan_laws::every_path_has_a_survey(path, l);
        if guard.flagged(path).is_void() {
            lemma_void_is_silent(path, l);
            lemma_unflagged_keeps(guard, path, method, moves);
        } else {
            let t = lemma_flagged_keeps(guard, path, moves);
            lemma_anchored_outcome(guard, guard.anchor(path), t, method);
        }
    }
}

/// Decoding a number of times is as many moves.
proof fn lemma_decode_moves(p: Parsing, start: State, n: nat) -> (moves: Seq<Move>)
    requires
        n <= start.passes,
    ensures
        rewriting::after(p, start, moves) is Some,
        rewriting::after(p, start, moves)->Some_0.bytes == percent::decode_times(start.bytes, n),
        rewriting::after(p, start, moves)->Some_0.passes == start.passes - n,
    decreases n,
{
    if n == 0 {
        Seq::empty()
    } else {
        let less = lemma_decode_moves(p, start, (n - 1) as nat);
        let moves = less.push(Move::Decode);
        assert(moves.drop_last() =~= less);
        moves
    }
}

/// Where a flagged path passes the positional check, it passes the exact comparisons of case
/// folding and decoding as well.
pub proof fn uniform_coverage_settles_comparisons(
    guard: PathConfusionGuard,
    config: GuardConfig,
    path: Seq<u8>,
    method: http::Method,
)
    requires
        guard.configured(config),
        0 < path.len() < usize::MAX,
        path[0] == 0x2F,
        !guard.flagged(path).is_void(),
        guard.structural_denial(path, method) is None,
    ensures
        guard.fold_denial(path, method) is None,
        guard.decode_denial(path, method) is None,
{
    let p = declared(guard);
    let start = received(guard, path);
    scan_laws::every_path_has_a_survey(path, guard.lens());
    assert forall|n: nat| n <= start.passes implies #[trigger] guard.decodes_in_place(
        path,
        n,
        method,
    ) by {
        let moves = lemma_decode_moves(p, start, n);
        let t = lemma_flagged_keeps(guard, path, moves);
        lemma_anchored_outcome(guard, guard.anchor(path), t, method);
    }
    assert(guard.decodes_in_place(path, 0, method));
    assert(guard.decodes_in_place(path, 1, method));
    assert(guard.enc.double_decode ==> guard.decodes_in_place(path, 2, method));
}

} // verus!
