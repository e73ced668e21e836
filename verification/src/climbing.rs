//! How many dot-segments a path can turn out to have, and that no move adds one.

use vstd::prelude::*;

use crate::anchor;
use crate::percent;
use crate::rewriting::Parsing;
use crate::structural;
use crate::structural::Encodings;

verus! {

/// The characters of a path, alternate spellings read as what they stand for.
pub open spec fn faces(b: Seq<u8>, enc: Encodings) -> Seq<u8>
    decreases b.len(),
{
    if b.len() == 0 {
        Seq::empty()
    } else {
        proof {
            lemma_width(b, enc, 0);
        }
        seq![structural::face_at(b, enc, 0)] + faces(
            b.skip(structural::width_at(b, enc, 0)),
            enc,
        )
    }
}

/// Whether the character separates segments.
pub open spec fn divides(c: u8, backslash: bool) -> bool {
    c == 0x2F || (backslash && c == 0x5C)
}

/// The first separator at or after `i`, or the length.
pub open spec fn next_divide(f: Seq<u8>, backslash: bool, i: int) -> int
    decreases f.len() - i,
{
    if i >= f.len() || divides(f[i], backslash) {
        i
    } else {
        next_divide(f, backslash, i + 1)
    }
}

/// Whether a segment is `.` or `..`, not counting its parameters.
pub open spec fn is_dots(seg: Seq<u8>) -> bool {
    &&& seg.len() > 0 && seg[0] == 0x2E
    &&& {
        ||| seg.len() == 1 || seg[1] == 0x3B
        ||| seg[1] == 0x2E && (seg.len() == 2 || seg[2] == 0x3B)
    }
}

/// How many segments are `.` or `..`.
pub open spec fn dot_segs(f: Seq<u8>, backslash: bool) -> nat
    decreases f.len(),
{
    let k = next_divide(f, backslash, 0);
    let first: nat = if is_dots(f.take(k)) {
        1
    } else {
        0
    };
    if k < 0 || k >= f.len() {
        first
    } else {
        first + dot_segs(f.skip(k + 1), backslash)
    }
}

/// A spelling is one to four bytes long and stays within the path.
pub proof fn lemma_width(b: Seq<u8>, enc: Encodings, i: int)
    ensures
        1 <= structural::width_at(b, enc, i) <= 4,
        0 <= i < b.len() ==> i + structural::width_at(b, enc, i) <= b.len(),
        0 <= i < b.len() && b[i] < 0x80 ==> structural::form_at(b, enc, i) is None,
{
}

pub proof fn lemma_next_divide(f: Seq<u8>, backslash: bool, i: int)
    requires
        0 <= i <= f.len(),
    ensures
        i <= next_divide(f, backslash, i) <= f.len(),
        next_divide(f, backslash, i) < f.len() ==> divides(
            f[next_divide(f, backslash, i)],
            backslash,
        ),
        forall|j: int|
            i <= j < next_divide(f, backslash, i) ==> !divides(#[trigger] f[j], backslash),
    decreases f.len() - i,
{
    if i < f.len() && !divides(f[i], backslash) {
        lemma_next_divide(f, backslash, i + 1);
    }
}

/// The first separator is where the first one is.
proof fn lemma_divide_at(f: Seq<u8>, backslash: bool, k: int)
    requires
        0 <= k <= f.len(),
        k < f.len() ==> divides(f[k], backslash),
        forall|j: int| 0 <= j < k ==> !divides(#[trigger] f[j], backslash),
    ensures
        next_divide(f, backslash, 0) == k,
{
    lemma_next_divide(f, backslash, 0);
    let n = next_divide(f, backslash, 0);
    if n < k {
        assert(divides(f[n], backslash));
    }
    if k < n {
        assert(!divides(f[k], backslash));
    }
}

/// Without a separator there is one segment.
pub proof fn lemma_whole_segment(f: Seq<u8>, backslash: bool)
    requires
        forall|j: int| 0 <= j < f.len() ==> !divides(#[trigger] f[j], backslash),
    ensures
        dot_segs(f, backslash) == if is_dots(f) {
            1nat
        } else {
            0
        },
{
    lemma_divide_at(f, backslash, f.len() as int);
    assert(f.take(f.len() as int) =~= f);
}

/// A separator splits the count.
pub proof fn lemma_split_dots(u: Seq<u8>, c: u8, v: Seq<u8>, backslash: bool)
    requires
        divides(c, backslash),
    ensures
        dot_segs(u + seq![c] + v, backslash) == dot_segs(u, backslash) + dot_segs(v, backslash),
    decreases u.len(),
{
    let f = u + seq![c] + v;
    lemma_next_divide(u, backslash, 0);
    let k = next_divide(u, backslash, 0);
    assert forall|j: int| 0 <= j < k implies !divides(#[trigger] f[j], backslash) by {
        assert(f[j] == u[j]);
    }
    lemma_divide_at(f, backslash, k);
    assert(f.take(k) =~= u.take(k));
    if k < u.len() {
        assert(f.skip(k + 1) =~= u.skip(k + 1) + seq![c] + v);
        lemma_split_dots(u.skip(k + 1), c, v, backslash);
    } else {
        assert(f.skip(k + 1) =~= v);
    }
}

/// What follows a `;` in place of nothing adds dot-segments at most.
pub proof fn lemma_param_dots(u: Seq<u8>, w: Seq<u8>, backslash: bool)
    ensures
        dot_segs(u + seq![0x3Bu8] + w, backslash) >= dot_segs(u, backslash),
    decreases u.len(),
{
    let f = u + seq![0x3Bu8] + w;
    lemma_next_divide(u, backslash, 0);
    let k = next_divide(u, backslash, 0);
    if k < u.len() {
        assert forall|j: int| 0 <= j < k implies !divides(#[trigger] f[j], backslash) by {
            assert(f[j] == u[j]);
        }
        lemma_divide_at(f, backslash, k);
        assert(f.take(k) =~= u.take(k));
        assert(f.skip(k + 1) =~= u.skip(k + 1) + seq![0x3Bu8] + w);
        lemma_param_dots(u.skip(k + 1), w, backslash);
    } else {
        lemma_next_divide(f, backslash, 0);
        let e = next_divide(f, backslash, 0);
        assert(e > u.len()) by {
            if e <= u.len() {
                if e < u.len() {
                    assert(f[e] == u[e]);
                } else {
                    assert(f[e] == 0x3B);
                }
            }
        }
        let seg = f.take(e);
        assert(seg[u.len() as int] == 0x3B);
        assert(u.take(k) =~= u);
        assert(forall|j: int| 0 <= j < u.len() ==> seg[j] == u[j]);
        assert(is_dots(u) ==> is_dots(seg));
    }
}

/// Reading characters can be split where no spelling goes across.
pub proof fn lemma_split_faces(u: Seq<u8>, v: Seq<u8>, enc: Encodings)
    requires
        u.len() == 0 || v.len() == 0 || u.last() < 0x80 || v[0] < 0x80 || v[0] >= 0xC0,
    ensures
        faces(u + v, enc) == faces(u, enc) + faces(v, enc),
    decreases u.len(),
{
    let s = u + v;
    if u.len() == 0 {
        assert(s =~= v);
        assert(faces(u, enc) + faces(v, enc) =~= faces(v, enc));
    } else if v.len() == 0 {
        assert(s =~= u);
        assert(faces(u, enc) + faces(v, enc) =~= faces(u, enc));
    } else {
        lemma_width(s, enc, 0);
        lemma_width(u, enc, 0);
        let w = structural::width_at(s, enc, 0);
        assert(s[0] == u[0]);
        assert(structural::form_at(s, enc, 0) == structural::form_at(u, enc, 0)) by {
            lemma_form_in_front(u, v, enc);
        }
        assert(s.skip(w) =~= u.skip(w) + v);
        if u.skip(w).len() > 0 {
            assert(u.skip(w).last() == u.last());
        }
        lemma_split_faces(u.skip(w), v, enc);
        assert(faces(s, enc) =~= faces(u, enc) + faces(v, enc));
    }
}

/// No spelling goes across the boundary.
proof fn lemma_form_in_front(u: Seq<u8>, v: Seq<u8>, enc: Encodings)
    requires
        u.len() > 0,
        v.len() > 0,
        u.last() < 0x80 || v[0] < 0x80 || v[0] >= 0xC0,
    ensures
        structural::form_at(u + v, enc, 0) == structural::form_at(u, enc, 0),
{
    let s = u + v;
    assert(forall|j: int| 0 <= j < u.len() ==> s[j] == u[j]);
    assert(forall|j: int| 0 <= j < v.len() ==> s[u.len() + j] == v[j]);
    assert(s[u.len() as int] == v[0]);
    assert(s[u.len() - 1] == u.last());
    let n = u.len();
    if n == 1 || n == 2 || n == 3 {
        assert(percent::fullwidth_form(s, 0) == percent::fullwidth_form(u, 0));
        assert(percent::overlong_form(s, 0) == percent::overlong_form(u, 0));
    }
}

/// A byte that neither begins an escape nor belongs to one.
pub open spec fn firm(b: u8) -> bool {
    b != 0x25 && percent::hex_digit(b) is None
}

/// Whether no escape can go across the boundary, now or after decoding.
pub open spec fn parted(u: Seq<u8>, v: Seq<u8>) -> bool {
    u.len() == 0 || v.len() == 0 || firm(u.last()) || firm(v[0])
}

/// Decoding can be split where no escape goes across.
pub proof fn lemma_split_decode(u: Seq<u8>, v: Seq<u8>)
    requires
        parted(u, v),
    ensures
        percent::decode(u + v) == percent::decode(u) + percent::decode(v),
    decreases u.len(),
{
    let s = u + v;
    if u.len() == 0 {
        assert(s =~= v);
        assert(percent::decode(u) + percent::decode(v) =~= percent::decode(v));
    } else if v.len() == 0 {
        assert(s =~= u);
        assert(percent::decode(u) + percent::decode(v) =~= percent::decode(u));
    } else {
        assert(percent::escape_at(s, 0) == percent::escape_at(u, 0)) by {
            assert(s[0] == u[0]);
            assert(s[u.len() as int] == v[0]);
            assert(s[u.len() - 1] == u.last());
            assert(forall|j: int| 0 <= j < u.len() ==> s[j] == u[j]);
        }
        let w: int = if percent::escape_at(u, 0) is Some {
            3
        } else {
            1
        };
        assert(s.skip(w) =~= u.skip(w) + v);
        if u.skip(w).len() > 0 {
            assert(u.skip(w).last() == u.last());
        }
        lemma_split_decode(u.skip(w), v);
        assert(percent::decode(s) =~= percent::decode(u) + percent::decode(v));
    }
}

/// A firm byte at the start or the end stays there.
pub proof fn lemma_firm_ends(u: Seq<u8>)
    requires
        u.len() > 0,
    ensures
        percent::decode(u).len() > 0,
        firm(u[0]) ==> percent::decode(u)[0] == u[0],
        firm(u.last()) ==> percent::decode(u).last() == u.last(),
{
    if firm(u.last()) {
        let front = u.drop_last();
        let back = seq![u.last()];
        assert(front + back =~= u);
        lemma_split_decode(front, back);
        lemma_firm_byte(u.last());
        assert(percent::decode(u).last() == u.last());
    }
}

/// A firm byte decodes to itself.
pub proof fn lemma_firm_byte(b: u8)
    requires
        firm(b),
    ensures
        percent::decode(seq![b]) == seq![b],
{
    let s = seq![b];
    assert(s.skip(1) =~= Seq::<u8>::empty());
    assert(percent::decode(s.skip(1)) =~= Seq::<u8>::empty());
    assert(percent::decode(s) =~= s);
}

/// Any number of decode passes can be split where no escape goes across.
pub proof fn lemma_split_times(u: Seq<u8>, v: Seq<u8>, n: nat)
    requires
        parted(u, v),
    ensures
        percent::decode_times(u + v, n) == percent::decode_times(u, n) + percent::decode_times(
            v,
            n,
        ),
        parted(percent::decode_times(u, n), percent::decode_times(v, n)),
    decreases n,
{
    if n > 0 {
        lemma_split_times(u, v, (n - 1) as nat);
        lemma_split_decode(
            percent::decode_times(u, (n - 1) as nat),
            percent::decode_times(v, (n - 1) as nat),
        );
        lemma_ends_times(u, (n - 1) as nat);
        lemma_ends_times(v, (n - 1) as nat);
        lemma_ends_times(u, n);
        lemma_ends_times(v, n);
    }
}

/// Firm ends stay through any number of decode passes.
pub proof fn lemma_ends_times(u: Seq<u8>, n: nat)
    ensures
        u.len() == 0 <==> percent::decode_times(u, n).len() == 0,
        u.len() > 0 && firm(u[0]) ==> percent::decode_times(u, n)[0] == u[0],
        u.len() > 0 && firm(u.last()) ==> percent::decode_times(u, n).last() == u.last(),
    decreases n,
{
    if n > 0 {
        lemma_ends_times(u, (n - 1) as nat);
        let before = percent::decode_times(u, (n - 1) as nat);
        if before.len() > 0 {
            lemma_firm_ends(before);
        } else {
            assert(percent::decode(before).len() == 0);
        }
    }
}

/// A path of firm bytes stays as it is.
pub proof fn lemma_firm_times(u: Seq<u8>, n: nat)
    requires
        forall|i: int| 0 <= i < u.len() ==> firm(#[trigger] u[i]),
    ensures
        percent::decode_times(u, n) == u,
    decreases n,
{
    if n > 0 {
        lemma_firm_times(u, (n - 1) as nat);
        assert forall|i: int| 0 <= i < u.len() implies (#[trigger] percent::escape_at(u, i)) is None by {
            assert(firm(u[i]));
        }
        percent::decode_fixed_point(u);
    }
}

/// How many dot-segments a path has.
pub open spec fn dots(b: Seq<u8>, p: Parsing) -> nat {
    dot_segs(faces(b, p.enc), p.backslash)
}

/// Whether a segment can begin behind `u`.
pub open spec fn slashed(u: Seq<u8>) -> bool {
    u.len() == 0 || u.last() == 0x2F
}

/// One plain ASCII character reads as itself.
pub proof fn lemma_one_face(b: u8, enc: Encodings)
    requires
        b < 0x80,
    ensures
        faces(seq![b], enc) == seq![b],
{
    let s = seq![b];
    lemma_width(s, enc, 0);
    assert(s.skip(1) =~= Seq::<u8>::empty());
    assert(faces(s.skip(1), enc) =~= Seq::<u8>::empty());
    assert(faces(s, enc) =~= s);
}

/// A separator splits the count.
pub proof fn lemma_divided(x: Seq<u8>, c: u8, y: Seq<u8>, p: Parsing)
    requires
        divides(c, p.backslash),
    ensures
        dots(x + seq![c] + y, p) == dots(x, p) + dots(y, p),
{
    lemma_split_faces(x + seq![c], y, p.enc);
    lemma_split_faces(x, seq![c], p.enc);
    lemma_one_face(c, p.enc);
    lemma_split_dots(faces(x, p.enc), c, faces(y, p.enc), p.backslash);
}

/// So does the slash that a path ends with.
pub proof fn lemma_slashed(u: Seq<u8>, x: Seq<u8>, p: Parsing)
    requires
        slashed(u),
    ensures
        dots(u + x, p) == dots(u, p) + dots(x, p),
{
    if u.len() == 0 {
        assert(u + x =~= x);
    } else {
        let front = u.drop_last();
        let none = Seq::<u8>::empty();
        assert(u =~= front + seq![0x2Fu8] + none);
        assert(u + x =~= front + seq![0x2Fu8] + x);
        lemma_divided(front, 0x2F, none, p);
        lemma_divided(front, 0x2F, x, p);
    }
}

/// `.` and `..` count as one.
pub proof fn lemma_count_dots(p: Parsing)
    ensures
        dots(seq![0x2Eu8], p) == 1,
        dots(seq![0x2Eu8, 0x2Eu8], p) == 1,
        dots(Seq::<u8>::empty(), p) == 0,
{
    let one = seq![0x2Eu8];
    let two = seq![0x2Eu8, 0x2Eu8];
    lemma_one_face(0x2E, p.enc);
    lemma_split_faces(one, one, p.enc);
    assert(one + one =~= two);
    assert(faces(two, p.enc) =~= two);
    lemma_divide_at(one, p.backslash, 1);
    lemma_divide_at(two, p.backslash, 2);
    assert(one.take(1) =~= one);
    assert(two.take(2) =~= two);
}

/// A segment `.` or `..` behind a slash counts, whether or not a slash follows.
pub proof fn lemma_drop_dots(u: Seq<u8>, d: Seq<u8>, v: Seq<u8>, p: Parsing)
    requires
        slashed(u),
        d == seq![0x2Eu8] || d == seq![0x2Eu8, 0x2Eu8],
    ensures
        dots(u + d + seq![0x2Fu8] + v, p) == dots(u + v, p) + 1,
        dots(u + d, p) == dots(u, p) + 1,
{
    lemma_count_dots(p);
    lemma_slashed(u, d, p);
    lemma_slashed(u, v, p);
    lemma_divided(u + d, 0x2F, v, p);
}

/// A doubled slash counts nothing.
pub proof fn lemma_drop_slash(u: Seq<u8>, v: Seq<u8>, p: Parsing)
    requires
        slashed(u),
    ensures
        dots(u + seq![0x2Fu8] + v, p) == dots(u + v, p),
{
    lemma_slashed(u, v, p);
    lemma_divided(u, 0x2F, v, p);
}

/// Dropping a parameter adds no dot-segment.
pub proof fn lemma_drop_param(u: Seq<u8>, w: Seq<u8>, v: Seq<u8>, p: Parsing)
    requires
        v.len() > 0 ==> divides(v[0], p.backslash),
    ensures
        dots(u + seq![0x3Bu8] + w + v, p) >= dots(u + v, p),
{
    let front = u + seq![0x3Bu8] + w;
    lemma_split_faces(u + seq![0x3Bu8], w, p.enc);
    lemma_split_faces(u, seq![0x3Bu8], p.enc);
    lemma_one_face(0x3B, p.enc);
    lemma_param_dots(faces(u, p.enc), faces(w, p.enc), p.backslash);
    assert(dots(front, p) >= dots(u, p));
    if v.len() == 0 {
        assert(front + v =~= front);
        assert(u + v =~= u);
    } else {
        let c = v[0];
        let rest = v.skip(1);
        assert(front + v =~= front + seq![c] + rest);
        assert(u + v =~= u + seq![c] + rest);
        lemma_divided(front, c, rest, p);
        lemma_divided(u, c, rest, p);
    }
}

/// Paths that differ in the case of ASCII letters only.
pub open spec fn alike(a: Seq<u8>, b: Seq<u8>) -> bool {
    a.len() == b.len() && forall|i: int|
        0 <= i < a.len() ==> anchor::lower(#[trigger] a[i]) == anchor::lower(b[i])
}

/// Such paths decode to such paths.
pub proof fn lemma_alike_decode(a: Seq<u8>, b: Seq<u8>)
    requires
        alike(a, b),
    ensures
        alike(percent::decode(a), percent::decode(b)),
    decreases a.len(),
{
    if a.len() > 0 {
        assert(anchor::lower(a[0]) == anchor::lower(b[0]));
        if a.len() > 2 {
            assert(anchor::lower(a[1]) == anchor::lower(b[1]));
            assert(anchor::lower(a[2]) == anchor::lower(b[2]));
        }
        assert(percent::escape_at(a, 0) == percent::escape_at(b, 0));
        let w: int = if percent::escape_at(a, 0) is Some {
            3
        } else {
            1
        };
        assert forall|i: int| 0 <= i < a.skip(w).len() implies anchor::lower(
            #[trigger] a.skip(w)[i],
        ) == anchor::lower(b.skip(w)[i]) by {
            assert(anchor::lower(a[i + w]) == anchor::lower(b[i + w]));
        }
        lemma_alike_decode(a.skip(w), b.skip(w));
        let da = percent::decode(a);
        let db = percent::decode(b);
        assert forall|i: int| 0 <= i < da.len() implies anchor::lower(#[trigger] da[i])
            == anchor::lower(db[i]) by {
            if i > 0 {
                assert(da[i] == percent::decode(a.skip(w))[i - 1]);
                assert(db[i] == percent::decode(b.skip(w))[i - 1]);
            }
        }
    }
}

pub proof fn lemma_alike_times(a: Seq<u8>, b: Seq<u8>, n: nat)
    requires
        alike(a, b),
    ensures
        alike(percent::decode_times(a, n), percent::decode_times(b, n)),
    decreases n,
{
    if n > 0 {
        lemma_alike_times(a, b, (n - 1) as nat);
        lemma_alike_decode(
            percent::decode_times(a, (n - 1) as nat),
            percent::decode_times(b, (n - 1) as nat),
        );
    }
}

/// Such paths have alternate spellings at the same places.
pub proof fn lemma_alike_form(a: Seq<u8>, b: Seq<u8>, enc: Encodings, i: int)
    requires
        alike(a, b),
    ensures
        structural::form_at(a, enc, i) == structural::form_at(b, enc, i),
{
    assert(forall|j: int|
        0 <= j < a.len() ==> anchor::lower(#[trigger] a[j]) == anchor::lower(b[j]));
    if 0 <= i < a.len() {
        assert(anchor::lower(a[i]) == anchor::lower(b[i]));
        if i + 1 < a.len() {
            assert(anchor::lower(a[i + 1]) == anchor::lower(b[i + 1]));
        }
        if i + 2 < a.len() {
            assert(anchor::lower(a[i + 2]) == anchor::lower(b[i + 2]));
        }
        if i + 3 < a.len() {
            assert(anchor::lower(a[i + 3]) == anchor::lower(b[i + 3]));
        }
    }
}

proof fn lemma_alike_faces(a: Seq<u8>, b: Seq<u8>, enc: Encodings)
    requires
        alike(a, b),
    ensures
        alike(faces(a, enc), faces(b, enc)),
    decreases a.len(),
{
    if a.len() > 0 {
        lemma_alike_form(a, b, enc, 0);
        lemma_width(a, enc, 0);
        let w = structural::width_at(a, enc, 0);
        assert(anchor::lower(a[0]) == anchor::lower(b[0]));
        assert forall|i: int| 0 <= i < a.skip(w).len() implies anchor::lower(
            #[trigger] a.skip(w)[i],
        ) == anchor::lower(b.skip(w)[i]) by {
            assert(anchor::lower(a[i + w]) == anchor::lower(b[i + w]));
        }
        lemma_alike_faces(a.skip(w), b.skip(w), enc);
        let fa = faces(a, enc);
        let fb = faces(b, enc);
        assert forall|i: int| 0 <= i < fa.len() implies anchor::lower(#[trigger] fa[i])
            == anchor::lower(fb[i]) by {
            if i > 0 {
                assert(fa[i] == faces(a.skip(w), enc)[i - 1]);
                assert(fb[i] == faces(b.skip(w), enc)[i - 1]);
            }
        }
    }
}

proof fn lemma_alike_dots(f: Seq<u8>, g: Seq<u8>, backslash: bool)
    requires
        alike(f, g),
    ensures
        dot_segs(f, backslash) == dot_segs(g, backslash),
    decreases f.len(),
{
    lemma_next_divide(f, backslash, 0);
    let k = next_divide(f, backslash, 0);
    assert forall|j: int| 0 <= j < f.len() implies divides(#[trigger] g[j], backslash) == divides(
        f[j],
        backslash,
    ) by {
        assert(anchor::lower(f[j]) == anchor::lower(g[j]));
    }
    assert forall|j: int| 0 <= j < k implies !divides(#[trigger] g[j], backslash) by {
        assert(!divides(f[j], backslash));
    }
    lemma_divide_at(g, backslash, k);
    assert(is_dots(f.take(k)) == is_dots(g.take(k))) by {
        if f.take(k).len() > 0 {
            assert(anchor::lower(f[0]) == anchor::lower(g[0]));
        }
        if f.take(k).len() > 1 {
            assert(anchor::lower(f[1]) == anchor::lower(g[1]));
        }
        if f.take(k).len() > 2 {
            assert(anchor::lower(f[2]) == anchor::lower(g[2]));
        }
    }
    if k < f.len() {
        assert forall|i: int| 0 <= i < f.skip(k + 1).len() implies anchor::lower(
            #[trigger] f.skip(k + 1)[i],
        ) == anchor::lower(g.skip(k + 1)[i]) by {
            assert(anchor::lower(f[i + k + 1]) == anchor::lower(g[i + k + 1]));
        }
        lemma_alike_dots(f.skip(k + 1), g.skip(k + 1), backslash);
    }
}

/// Case does not matter to the count.
pub proof fn lemma_alike_count(a: Seq<u8>, b: Seq<u8>, p: Parsing)
    requires
        alike(a, b),
    ensures
        dots(a, p) == dots(b, p),
{
    lemma_alike_faces(a, b, p.enc);
    lemma_alike_dots(faces(a, p.enc), faces(b, p.enc), p.backslash);
}

} // verus!
