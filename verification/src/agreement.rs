//! What the moves of a backend leave alone: a pristine prefix, but for as many segments as
//! there are dot-segments behind it.

use vstd::prelude::*;

use crate::anchor;
use crate::climbing;
use crate::percent;
use crate::rewriting;
use crate::rewriting::{Move, Parsing, State};
use crate::structural;
use crate::unescaping;

verus! {

broadcast use {
    rewriting::lemma_escaped,
    rewriting::lemma_decoded,
    rewriting::lemma_spelling,
    rewriting::lemma_lowercased,
};

/// Whether a path may turn out to be of a kind: at most `k` dot-segments, and no NUL,
/// however many of the passes are made.
pub open spec fn tame(t: Seq<u8>, p: Parsing, passes: nat, k: int) -> bool {
    forall|n: nat|
        n <= passes ==> {
            &&& climbing::dots(#[trigger] percent::decode_times(t, n), p) <= k
            &&& !percent::decode_times(t, n).contains(0)
        }
}

/// Decoding first makes one pass more.
pub proof fn lemma_decode_first(t: Seq<u8>, n: nat)
    ensures
        percent::decode_times(percent::decode(t), n) == percent::decode_times(t, n + 1),
    decreases n,
{
    if n > 0 {
        lemma_decode_first(t, (n - 1) as nat);
    } else {
        reveal_with_fuel(percent::decode_times, 2);
    }
}

/// Three parts between which no escape goes across, and the outer two without the middle.
proof fn lemma_parts(u: Seq<u8>, m: Seq<u8>, v: Seq<u8>, n: nat)
    requires
        m.len() > 0,
        climbing::parted(u, m),
        climbing::parted(m, v),
        climbing::parted(u, v),
    ensures
        percent::decode_times(u + m + v, n) == percent::decode_times(u, n)
            + percent::decode_times(m, n) + percent::decode_times(v, n),
        percent::decode_times(u + v, n) == percent::decode_times(u, n) + percent::decode_times(
            v,
            n,
        ),
{
    assert((u + m).last() == m.last());
    climbing::lemma_split_times(u + m, v, n);
    climbing::lemma_split_times(u, m, n);
    climbing::lemma_split_times(u, v, n);
}

/// What is not in a whole is not in its outer parts.
proof fn lemma_no_nul(u: Seq<u8>, m: Seq<u8>, v: Seq<u8>)
    requires
        !(u + m + v).contains(0),
    ensures
        !(u + v).contains(0),
        !u.contains(0),
        !v.contains(0),
{
    let whole = u + m + v;
    if (u + v).contains(0) {
        let i = (u + v).index_of(0);
        if i < u.len() {
            assert(whole[i] == 0);
        } else {
            assert(whole[i + m.len()] == 0);
        }
    }
    if u.contains(0) {
        let i = u.index_of(0);
        assert(whole[i] == 0);
    }
    if v.contains(0) {
        let i = v.index_of(0);
        assert(whole[u.len() + m.len() + i] == 0);
    }
}

/// A slash and a dot decode to themselves.
proof fn lemma_plain_times(n: nat)
    ensures
        percent::decode_times(seq![0x2Fu8], n) == seq![0x2Fu8],
        percent::decode_times(seq![0x2Eu8], n) == seq![0x2Eu8],
        percent::decode_times(seq![0x2Eu8, 0x2Eu8], n) == seq![0x2Eu8, 0x2Eu8],
        percent::decode_times(seq![0x3Bu8], n) == seq![0x3Bu8],
        percent::decode_times(seq![0x5Cu8], n) == seq![0x5Cu8],
        percent::decode_times(seq![0x2Eu8, 0x2Fu8], n) == seq![0x2Eu8, 0x2Fu8],
        percent::decode_times(seq![0x2Eu8, 0x2Eu8, 0x2Fu8], n) == seq![0x2Eu8, 0x2Eu8, 0x2Fu8],
{
    climbing::lemma_firm_times(seq![0x2Fu8], n);
    climbing::lemma_firm_times(seq![0x2Eu8], n);
    climbing::lemma_firm_times(seq![0x2Eu8, 0x2Eu8], n);
    climbing::lemma_firm_times(seq![0x3Bu8], n);
    climbing::lemma_firm_times(seq![0x5Cu8], n);
    climbing::lemma_firm_times(seq![0x2Eu8, 0x2Fu8], n);
    climbing::lemma_firm_times(seq![0x2Eu8, 0x2Eu8, 0x2Fu8], n);
}

/// Merging slashes keeps a path tame.
proof fn lemma_merge(u: Seq<u8>, v: Seq<u8>, p: Parsing, passes: nat, k: int)
    requires
        climbing::slashed(u),
        tame(u + seq![0x2Fu8] + v, p, passes, k),
    ensures
        tame(u + v, p, passes, k),
{
    let m = seq![0x2Fu8];
    assert forall|n: nat| n <= passes implies {
        &&& climbing::dots(#[trigger] percent::decode_times(u + v, n), p) <= k
        &&& !percent::decode_times(u + v, n).contains(0)
    } by {
        lemma_parts(u, m, v, n);
        lemma_plain_times(n);
        climbing::lemma_ends_times(u, n);
        let du = percent::decode_times(u, n);
        let dv = percent::decode_times(v, n);
        assert(climbing::dots(percent::decode_times(u + m + v, n), p) <= k);
        climbing::lemma_drop_slash(du, dv, p);
        lemma_no_nul(du, m, dv);
    }
}

/// Stripping a parameter keeps a path tame.
proof fn lemma_strip(u: Seq<u8>, w: Seq<u8>, v: Seq<u8>, p: Parsing, passes: nat, k: int)
    requires
        v.len() > 0 ==> climbing::divides(v[0], p.backslash),
        tame(u + (seq![0x3Bu8] + w) + v, p, passes, k),
    ensures
        tame(u + v, p, passes, k),
{
    let c = seq![0x3Bu8];
    let m = c + w;
    assert forall|n: nat| n <= passes implies {
        &&& climbing::dots(#[trigger] percent::decode_times(u + v, n), p) <= k
        &&& !percent::decode_times(u + v, n).contains(0)
    } by {
        assert(m[0] == 0x3B);
        lemma_parts(u, m, v, n);
        climbing::lemma_split_times(c, w, n);
        lemma_plain_times(n);
        climbing::lemma_ends_times(v, n);
        let du = percent::decode_times(u, n);
        let dw = percent::decode_times(w, n);
        let dv = percent::decode_times(v, n);
        assert(climbing::dots(percent::decode_times(u + m + v, n), p) <= k);
        assert(du + (c + dw) + dv =~= du + c + dw + dv);
        climbing::lemma_drop_param(du, dw, dv, p);
        lemma_no_nul(du, c + dw, dv);
    }
}

/// Dropping a dot-segment behind a slash leaves one less.
proof fn lemma_stay(
    u: Seq<u8>,
    d: Seq<u8>,
    v: Seq<u8>,
    slash: bool,
    p: Parsing,
    passes: nat,
    k: int,
)
    requires
        climbing::slashed(u),
        d == seq![0x2Eu8] || d == seq![0x2Eu8, 0x2Eu8],
        !slash ==> v.len() == 0,
        tame(
            u + (if slash {
                d + seq![0x2Fu8]
            } else {
                d
            }) + v,
            p,
            passes,
            k,
        ),
    ensures
        tame(u + v, p, passes, k - 1),
{
    let m = if slash {
        d + seq![0x2Fu8]
    } else {
        d
    };
    assert forall|n: nat| n <= passes implies {
        &&& climbing::dots(#[trigger] percent::decode_times(u + v, n), p) <= k - 1
        &&& !percent::decode_times(u + v, n).contains(0)
    } by {
        lemma_parts(u, m, v, n);
        lemma_plain_times(n);
        assert(seq![0x2Eu8] + seq![0x2Fu8] =~= seq![0x2Eu8, 0x2Fu8]);
        assert(seq![0x2Eu8, 0x2Eu8] + seq![0x2Fu8] =~= seq![0x2Eu8, 0x2Eu8, 0x2Fu8]);
        climbing::lemma_ends_times(u, n);
        climbing::lemma_ends_times(v, n);
        let du = percent::decode_times(u, n);
        let dv = percent::decode_times(v, n);
        assert(climbing::dots(percent::decode_times(u + m + v, n), p) <= k);
        climbing::lemma_drop_dots(du, d, dv, p);
        if slash {
            assert(du + (d + seq![0x2Fu8]) + dv =~= du + d + seq![0x2Fu8] + dv);
        } else {
            assert(du + d + dv =~= du + d);
            assert(du + dv =~= du);
        }
        lemma_no_nul(du, m, dv);
    }
}

/// Dropping a segment behind a slash, with its slash, adds no dot-segment.
proof fn lemma_drop_segment(
    u: Seq<u8>,
    x: Seq<u8>,
    v: Seq<u8>,
    p: Parsing,
    passes: nat,
    k: int,
)
    requires
        climbing::slashed(u),
        tame(u + (x + seq![0x2Fu8]) + v, p, passes, k),
    ensures
        tame(u + v, p, passes, k),
{
    let slash = seq![0x2Fu8];
    let m = x + slash;
    assert forall|n: nat| n <= passes implies {
        &&& climbing::dots(#[trigger] percent::decode_times(u + v, n), p) <= k
        &&& !percent::decode_times(u + v, n).contains(0)
    } by {
        assert(m.last() == 0x2F);
        lemma_parts(u, m, v, n);
        climbing::lemma_split_times(x, slash, n);
        lemma_plain_times(n);
        climbing::lemma_ends_times(u, n);
        let du = percent::decode_times(u, n);
        let dx = percent::decode_times(x, n);
        let dv = percent::decode_times(v, n);
        assert(climbing::dots(percent::decode_times(u + m + v, n), p) <= k);
        assert(du + (dx + slash) + dv =~= (du + dx) + slash + dv);
        climbing::lemma_divided(du + dx, 0x2F, dv, p);
        climbing::lemma_slashed(du, dx, p);
        climbing::lemma_slashed(du, dv, p);
        lemma_no_nul(du, dx + slash, dv);
    }
}

/// Reading a backslash as a slash keeps a path tame.
proof fn lemma_backslash(u: Seq<u8>, v: Seq<u8>, p: Parsing, passes: nat, k: int)
    requires
        p.backslash,
        tame(u + seq![0x5Cu8] + v, p, passes, k),
    ensures
        tame(u + seq![0x2Fu8] + v, p, passes, k),
{
    assert forall|n: nat| n <= passes implies {
        &&& climbing::dots(#[trigger] percent::decode_times(u + seq![0x2Fu8] + v, n), p) <= k
        &&& !percent::decode_times(u + seq![0x2Fu8] + v, n).contains(0)
    } by {
        lemma_around(u, seq![0x5Cu8], v, n);
        lemma_around(u, seq![0x2Fu8], v, n);
        let du = percent::decode_times(u, n);
        let dv = percent::decode_times(v, n);
        assert(climbing::dots(percent::decode_times(u + seq![0x5Cu8] + v, n), p) <= k);
        climbing::lemma_divided(du, 0x5C, dv, p);
        climbing::lemma_divided(du, 0x2F, dv, p);
        lemma_replaced_nul(du, seq![0x5Cu8], seq![0x2Fu8], dv);
    }
}

/// Firm bytes in the middle stay as they are.
proof fn lemma_around(u: Seq<u8>, m: Seq<u8>, v: Seq<u8>, n: nat)
    requires
        m.len() > 0,
        forall|i: int| 0 <= i < m.len() ==> climbing::firm(#[trigger] m[i]),
    ensures
        percent::decode_times(u + m + v, n) == percent::decode_times(u, n) + m
            + percent::decode_times(v, n),
{
    assert(climbing::firm(m[0]));
    assert(climbing::firm(m[m.len() - 1]));
    assert((u + m).last() == m.last());
    climbing::lemma_split_times(u + m, v, n);
    climbing::lemma_split_times(u, m, n);
    climbing::lemma_firm_times(m, n);
}

/// A middle without NUL in place of another brings none in.
proof fn lemma_replaced_nul(u: Seq<u8>, m: Seq<u8>, o: Seq<u8>, v: Seq<u8>)
    requires
        !(u + m + v).contains(0),
        !o.contains(0),
    ensures
        !(u + o + v).contains(0),
{
    lemma_no_nul(u, m, v);
    if (u + o + v).contains(0) {
        let i = (u + o + v).index_of(0);
        if i < u.len() {
            assert(u[i] == 0);
        } else if i < u.len() + o.len() {
            assert(o[i - u.len()] == 0);
        } else {
            assert(v[i - u.len() - o.len()] == 0);
        }
    }
}

/// Reading an alternate spelling as its character keeps a path tame.
proof fn lemma_spell(t: Seq<u8>, at: int, p: Parsing, passes: nat, k: int)
    requires
        structural::form_at(t, p.enc, at) is Some,
        tame(t, p, passes, k),
    ensures
        ({
            let (b, width) = structural::form_at(t, p.enc, at)->Some_0;
            tame(rewriting::spliced(t, at, width, b), p, passes, k)
        }),
{
    let (b, width) = structural::form_at(t, p.enc, at)->Some_0;
    let u = t.take(at);
    let m = t.subrange(at, at + width);
    let v = t.skip(at + width);
    assert(t =~= u + m + v);
    let o = seq![b];
    assert(b == 0x2F || b == 0x2E || b == 0x3B || b == 0x5C);
    assert forall|i: int| 0 <= i < m.len() implies climbing::firm(#[trigger] m[i]) by {
        assert(m[i] == t[at + i]);
        assert(t[at + i] >= 0x80);
    }
    assert forall|i: int| 0 <= i < o.len() implies climbing::firm(#[trigger] o[i]) by {}
    assert forall|n: nat| n <= passes implies {
        &&& climbing::dots(#[trigger] percent::decode_times(u + o + v, n), p) <= k
        &&& !percent::decode_times(u + o + v, n).contains(0)
    } by {
        lemma_around(u, m, v, n);
        lemma_around(u, o, v, n);
        let du = percent::decode_times(u, n);
        let dv = percent::decode_times(v, n);
        assert(climbing::dots(percent::decode_times(u + m + v, n), p) <= k);
        lemma_spelled_faces(du, m, dv, p, b, width, t, at);
        lemma_replaced_nul(du, m, o, dv);
    }
}

/// A spelling reads as its character wherever it stands.
proof fn lemma_spelled_faces(
    u: Seq<u8>,
    m: Seq<u8>,
    v: Seq<u8>,
    p: Parsing,
    b: u8,
    width: int,
    t: Seq<u8>,
    at: int,
)
    requires
        structural::form_at(t, p.enc, at) == Some((b, width)),
        m == t.subrange(at, at + width),
    ensures
        climbing::faces(u + m + v, p.enc) == climbing::faces(u + seq![b] + v, p.enc),
{
    let back = m + v;
    assert(0 <= at && at + width <= t.len());
    assert(forall|i: int| 0 <= i < width ==> back[i] == t[at + i]);
    assert(structural::form_at(back, p.enc, 0) == Some((b, width)));
    assert(back.skip(width) =~= v);
    assert(back[0] >= 0xC0);
    assert(u + m + v =~= u + back);
    climbing::lemma_split_faces(u, back, p.enc);
    assert(climbing::faces(back, p.enc) =~= seq![b] + climbing::faces(v, p.enc));
    let plain = seq![b] + v;
    assert(u + seq![b] + v =~= u + plain);
    climbing::lemma_split_faces(u, plain, p.enc);
    climbing::lemma_split_faces(seq![b], v, p.enc);
    climbing::lemma_one_face(b, p.enc);
}

/// Lowercasing keeps a path tame.
proof fn lemma_lower(t: Seq<u8>, at: int, p: Parsing, passes: nat, k: int)
    requires
        0 <= at < t.len(),
        tame(t, p, passes, k),
    ensures
        tame(t.update(at, anchor::lower(t[at])), p, passes, k),
{
    let q = t.update(at, anchor::lower(t[at]));
    assert(climbing::alike(t, q));
    assert forall|n: nat| n <= passes implies {
        &&& climbing::dots(#[trigger] percent::decode_times(q, n), p) <= k
        &&& !percent::decode_times(q, n).contains(0)
    } by {
        climbing::lemma_alike_times(t, q, n);
        let a = percent::decode_times(t, n);
        let b = percent::decode_times(q, n);
        assert(climbing::dots(a, p) <= k);
        climbing::lemma_alike_count(a, b, p);
        if b.contains(0) {
            let i = b.index_of(0);
            assert(anchor::lower(a[i]) == anchor::lower(b[i]));
            assert(a[i] == 0);
        }
    }
}

/// A prefix in which nothing is to be rewritten: it begins and ends with a slash, and
/// holds no escape, NUL, parameter, separator in another spelling, doubled slash or
/// dot-segment, nor a letter that would be lowercased.
pub open spec fn pristine(q: Seq<u8>, p: Parsing) -> bool {
    &&& q.len() > 0 && q[0] == 0x2F && q.last() == 0x2F
    &&& forall|i: int|
        0 <= i < q.len() ==> {
            &&& #[trigger] q[i] != 0x25
            &&& q[i] != 0
            &&& q[i] != 0x3B
            &&& !(p.backslash && q[i] == 0x5C)
            &&& !(p.fold && 0x41 <= q[i] <= 0x5A)
        }
    &&& forall|i: int| #![trigger q[i]] 0 < i < q.len() ==> !(q[i - 1] == 0x2F && q[i] == 0x2F)
    &&& forall|i: int| !(#[trigger] dots_at(q, i))
    &&& forall|i: int| !(#[trigger] spelled_at(q, p, i))
}

/// Whether a dot-segment begins at `i`, with a slash behind it.
pub open spec fn dots_at(q: Seq<u8>, i: int) -> bool {
    &&& rewriting::after_slash(q, i)
    &&& i < q.len() && q[i] == 0x2E
    &&& {
        ||| i + 1 < q.len() && q[i + 1] == 0x2F
        ||| i + 2 < q.len() && q[i + 1] == 0x2E && q[i + 2] == 0x2F
    }
}

/// Whether an alternate spelling begins at `i` that is read as its character.
pub open spec fn spelled_at(q: Seq<u8>, p: Parsing, i: int) -> bool {
    structural::form_at(q, p.enc, i) matches Some((b, _)) && (b != 0x5C || p.backslash)
}

/// A prefix of a pristine prefix, up to a slash, is pristine.
pub proof fn lemma_shorter_pristine(q: Seq<u8>, l: int, p: Parsing)
    requires
        pristine(q, p),
        rewriting::after_slash(q, l),
    ensures
        pristine(q.take(l), p),
{
    let r = q.take(l);
    assert(forall|i: int| 0 <= i < l ==> r[i] == q[i]);
    assert(r.last() == q[l - 1]);
    assert forall|i: int| #![trigger r[i]] 0 < i < r.len() implies !(r[i - 1] == 0x2F && r[i]
        == 0x2F) by {
        assert(q[i] == r[i]);
    }
    assert forall|i: int| !(#[trigger] dots_at(r, i)) by {
        assert(!dots_at(q, i));
    }
    assert forall|i: int| !(#[trigger] spelled_at(r, p, i)) by {
        assert(!spelled_at(q, p, i));
        lemma_form_within(q, l, p, i);
    }
}

/// A spelling in a prefix is one in the whole.
pub proof fn lemma_form_within(q: Seq<u8>, l: int, p: Parsing, i: int)
    requires
        0 <= l <= q.len(),
    ensures
        structural::form_at(q.take(l), p.enc, i) is Some ==> structural::form_at(q.take(l), p.enc, i)
            == structural::form_at(q, p.enc, i),
{
    let r = q.take(l);
    assert(forall|j: int| 0 <= j < l ==> r[j] == q[j]);
}

/// A spelling that begins in a prefix that ends in a slash lies in it.
proof fn lemma_form_in_prefix(q: Seq<u8>, t: Seq<u8>, p: Parsing, i: int)
    requires
        q.len() > 0,
        q.last() == 0x2F,
    ensures
        i < q.len() ==> structural::form_at(q + t, p.enc, i) == structural::form_at(q, p.enc, i),
        i >= q.len() ==> structural::form_at(q + t, p.enc, i) == structural::form_at(
            t,
            p.enc,
            i - q.len(),
        ),
{
    let s = q + t;
    assert(forall|j: int| 0 <= j < q.len() ==> s[j] == q[j]);
    assert(forall|j: int| 0 <= j < t.len() ==> s[q.len() + j] == t[j]);
    if i >= q.len() {
        let a = i - q.len();
        assert(a < t.len() ==> s[i] == t[a]);
        assert(a + 1 < t.len() ==> s[i + 1] == t[a + 1]);
        assert(a + 2 < t.len() ==> s[i + 2] == t[a + 2]);
        assert(a + 3 < t.len() ==> s[i + 3] == t[a + 3]);
    } else if 0 <= i {
        let last = q.len() - 1;
        assert(s[last] == 0x2F);
        assert(i + 1 < s.len() && i + 1 >= q.len() ==> i == last);
        assert(i + 2 >= q.len() && i + 2 < s.len() ==> i == last || i + 1 == last);
        assert(i + 3 >= q.len() && i + 3 < s.len() ==> i == last || i + 1 == last || i + 2 == last);
    }
}

/// Cutting behind a prefix.
proof fn lemma_cut_behind(q: Seq<u8>, t: Seq<u8>, from: int, to: int)
    requires
        q.len() <= from <= to <= q.len() + t.len(),
    ensures
        rewriting::cut(q + t, from, to) == q + rewriting::cut(t, from - q.len(), to - q.len()),
{
    let s = q + t;
    assert(rewriting::cut(s, from, to) =~= q + rewriting::cut(t, from - q.len(), to - q.len()));
}

/// The walk back to the start of a segment.
pub proof fn lemma_segment_start(s: Seq<u8>, at: int)
    requires
        0 <= at <= s.len(),
    ensures
        0 <= rewriting::segment_start(s, at) <= at,
        rewriting::segment_start(s, at) > 0 ==> s[rewriting::segment_start(s, at) - 1] == 0x2F,
        forall|j: int| rewriting::segment_start(s, at) <= j < at ==> #[trigger] s[j] != 0x2F,
    decreases at,
{
    if at > 0 && s[at - 1] != 0x2F {
        lemma_segment_start(s, at - 1);
    }
}

/// Cutting through the last slash is walking back to the start of a segment.
pub proof fn lemma_through_is_start(q: Seq<u8>, at: int)
    requires
        0 < at <= q.len(),
        q[0] == 0x2F,
    ensures
        anchor::through_slash(q.take(at)) == q.take(rewriting::segment_start(q, at)),
        rewriting::segment_start(q, at) > 0,
    decreases at,
{
    let r = q.take(at);
    assert(r.last() == q[at - 1]);
    if q[at - 1] != 0x2F {
        assert(at > 1);
        assert(r.drop_last() =~= q.take(at - 1));
        lemma_through_is_start(q, at - 1);
    }
}

/// What raising a prefix gives: a shorter prefix that ends in a slash.
pub proof fn lemma_raised(q: Seq<u8>, r: nat) -> (l: int)
    requires
        q.len() > 0,
        q[0] == 0x2F,
        q.last() == 0x2F,
    ensures
        rewriting::after_slash(q, l),
        anchor::raised(q, r) == q.take(l),
    decreases r,
{
    if r == 0 || q == anchor::root() {
        assert(q.take(q.len() as int) =~= q);
        q.len() as int
    } else {
        assert(q.len() > 1) by {
            if q.len() == 1 {
                assert(q =~= anchor::root());
            }
        }
        let at = q.len() - 1;
        assert(q.drop_last() =~= q.take(at));
        lemma_through_is_start(q, at);
        lemma_segment_start(q, at);
        let c = rewriting::segment_start(q, at);
        let up = q.take(c);
        assert(up.last() == q[c - 1]);
        let l = lemma_raised(up, (r - 1) as nat);
        assert(up.take(l) =~= q.take(l));
        l
    }
}

/// Raising twice is raising by the sum.
pub proof fn lemma_raised_more(q: Seq<u8>, r: nat, m: nat)
    ensures
        anchor::raised(anchor::raised(q, r), m) == anchor::raised(q, r + m),
    decreases r,
{
    if r > 0 && q != anchor::root() {
        lemma_raised_more(anchor::through_slash(q.drop_last()), (r - 1) as nat, m);
    }
}

/// Whether the path under way still has its prefix, raised by no more segments than the
/// dot-segments that were dropped.
pub open spec fn on_track(
    q: Seq<u8>,
    k: nat,
    p: Parsing,
    state: State,
    r: nat,
    t: Seq<u8>,
) -> bool {
    &&& state.bytes == anchor::raised(q, r) + t
    &&& tame(t, p, state.passes, k - r)
}

/// Decoding leaves the prefix alone.
proof fn lemma_step_decode(pre: Seq<u8>, t: Seq<u8>, p: Parsing, passes: nat, k: int)
    requires
        pristine(pre, p),
        passes > 0,
        tame(t, p, passes, k),
    ensures
        percent::decode(pre + t) == pre + percent::decode(t),
        tame(percent::decode(t), p, (passes - 1) as nat, k),
{
    assert forall|i: int| 0 <= i < pre.len() implies (#[trigger] percent::escape_at(pre, i)) is None by {
        assert(pre[i] != 0x25);
    }
    percent::decode_fixed_point(pre);
    climbing::lemma_split_decode(pre, t);
    let d = percent::decode(t);
    assert forall|n: nat| n <= passes - 1 implies {
        &&& climbing::dots(#[trigger] percent::decode_times(d, n), p) <= k
        &&& !percent::decode_times(d, n).contains(0)
    } by {
        lemma_decode_first(t, n);
        assert(climbing::dots(percent::decode_times(t, n + 1), p) <= k);
    }
}

/// Escapes stand behind the prefix.
proof fn lemma_step_unescape(
    pre: Seq<u8>,
    t: Seq<u8>,
    p: Parsing,
    passes: nat,
    k: int,
    at: int,
) -> (to: Seq<u8>)
    requires
        pristine(pre, p),
        passes > 0,
        tame(t, p, passes, k),
        rewriting::rewritten(p, pre + t, Move::Unescape { at }) is Some,
    ensures
        rewriting::rewritten(p, pre + t, Move::Unescape { at }) == Some(pre + to),
        tame(to, p, passes, k),
{
    let s = pre + t;
    let l = pre.len() as int;
    let b = percent::escape_at(s, at)->Some_0;
    assert(at >= l) by {
        if at < l {
            assert(pre[at] == 0x25);
        }
    }
    assert(percent::escape_at(t, at - l) == Some(b));
    let to = rewriting::spliced(t, at - l, 3, b);
    assert(rewriting::spliced(s, at, 3, b) =~= pre + to);
    unescaping::lemma_unescape_decode(t, at - l);
    unescaping::lemma_decode_dots(to, p);
    let d = percent::decode(t);
    assert(percent::decode_times(t, 0) == t);
    lemma_decode_first(t, 0);
    assert(percent::decode_times(d, 0) == d);
    assert(climbing::dots(percent::decode_times(t, 1), p) <= k);
    if to.contains(0) {
        unescaping::lemma_firm_stays(to, 0);
    }
    assert forall|n: nat| n <= passes implies {
        &&& climbing::dots(#[trigger] percent::decode_times(to, n), p) <= k
        &&& !percent::decode_times(to, n).contains(0)
    } by {
        if n > 0 {
            lemma_decode_first(to, (n - 1) as nat);
            lemma_decode_first(t, (n - 1) as nat);
            assert(climbing::dots(percent::decode_times(t, n), p) <= k);
        }
    }
    to
}

/// Merging happens behind the prefix.
proof fn lemma_step_merge(
    pre: Seq<u8>,
    t: Seq<u8>,
    p: Parsing,
    passes: nat,
    k: int,
    at: int,
) -> (to:
    Seq<u8>)
    requires
        pristine(pre, p),
        tame(t, p, passes, k),
        rewriting::rewritten(p, pre + t, Move::Merge { at }) is Some,
    ensures
        rewriting::rewritten(p, pre + t, Move::Merge { at }) == Some(pre + to),
        tame(to, p, passes, k),
{
    let s = pre + t;
    let l = pre.len() as int;
    assert(at >= l) by {
        if at < l {
            assert(pre[at] == 0x2F && pre[at - 1] == 0x2F);
        }
    }
    lemma_cut_behind(pre, t, at, at + 1);
    let u = t.take(at - l);
    let v = t.skip(at - l + 1);
    assert(t =~= u + seq![0x2Fu8] + v);
    assert(climbing::slashed(u)) by {
        if u.len() > 0 {
            assert(u.last() == s[at - 1]);
        }
    }
    lemma_merge(u, v, p, passes, k);
    u + v
}

/// Parameters stand behind the prefix.
proof fn lemma_step_strip(
    pre: Seq<u8>,
    t: Seq<u8>,
    p: Parsing,
    passes: nat,
    k: int,
    at: int,
    end: int,
) -> (to: Seq<u8>)
    requires
        pristine(pre, p),
        tame(t, p, passes, k),
        rewriting::rewritten(p, pre + t, Move::Strip { at, end }) is Some,
    ensures
        rewriting::rewritten(p, pre + t, Move::Strip { at, end }) == Some(pre + to),
        tame(to, p, passes, k),
{
    let s = pre + t;
    let l = pre.len() as int;
    assert(at >= l) by {
        if at < l {
            assert(pre[at] == 0x3B);
        }
    }
    lemma_cut_behind(pre, t, at, end);
    let u = t.take(at - l);
    let w = t.subrange(at - l + 1, end - l);
    let v = t.skip(end - l);
    assert(t =~= u + (seq![0x3Bu8] + w) + v);
    if v.len() > 0 {
        assert(v[0] == s[end]);
    }
    lemma_strip(u, w, v, p, passes, k);
    u + v
}

/// The segment `.` stands behind the prefix.
proof fn lemma_step_stay(pre: Seq<u8>, t: Seq<u8>, p: Parsing, passes: nat, k: int, at: int) -> (to:
    Seq<u8>)
    requires
        pristine(pre, p),
        tame(t, p, passes, k),
        rewriting::rewritten(p, pre + t, Move::Stay { at }) is Some,
    ensures
        rewriting::rewritten(p, pre + t, Move::Stay { at }) == Some(pre + to),
        tame(to, p, passes, k),
{
    let s = pre + t;
    let l = pre.len() as int;
    assert(at >= l) by {
        if at < l {
            assert(pre.last() == 0x2F);
            assert(pre[at] == 0x2E);
            assert(at + 1 < l);
            assert(s[at + 1] == pre[at + 1]);
            assert(dots_at(pre, at));
        }
    }
    let end = rewriting::behind_slash(s, at + 1);
    lemma_cut_behind(pre, t, at, end);
    let u = t.take(at - l);
    let v = t.skip(end - l);
    let slash = at + 1 < s.len();
    let d = seq![0x2Eu8];
    assert(climbing::slashed(u)) by {
        if u.len() > 0 {
            assert(u.last() == s[at - 1]);
        }
    }
    assert(t[at - l] == s[at]);
    if slash {
        assert(t[at + 1 - l] == s[at + 1]);
        assert(t =~= u + (d + seq![0x2Fu8]) + v);
    } else {
        assert(t =~= u + d + v);
    }
    lemma_stay(u, d, v, slash, p, passes, k);
    lemma_tamer(u + v, p, passes, k - 1, k);
    u + v
}

/// Backslashes stand behind the prefix.
proof fn lemma_step_backslash(
    pre: Seq<u8>,
    t: Seq<u8>,
    p: Parsing,
    passes: nat,
    k: int,
    at: int,
) -> (to: Seq<u8>)
    requires
        pristine(pre, p),
        tame(t, p, passes, k),
        rewriting::rewritten(p, pre + t, Move::Backslash { at }) is Some,
    ensures
        rewriting::rewritten(p, pre + t, Move::Backslash { at }) == Some(pre + to),
        tame(to, p, passes, k),
{
    let l = pre.len() as int;
    assert(at >= l) by {
        if at < l {
            assert(pre[at] == 0x5C);
        }
    }
    let u = t.take(at - l);
    let v = t.skip(at - l + 1);
    assert(t =~= u + seq![0x5Cu8] + v);
    let to = u + seq![0x2Fu8] + v;
    assert((pre + t).update(at, 0x2F) =~= pre + to);
    lemma_backslash(u, v, p, passes, k);
    to
}

/// Alternate spellings stand behind the prefix.
proof fn lemma_step_spell(
    pre: Seq<u8>,
    t: Seq<u8>,
    p: Parsing,
    passes: nat,
    k: int,
    at: int,
) -> (to:
    Seq<u8>)
    requires
        pristine(pre, p),
        tame(t, p, passes, k),
        rewriting::rewritten(p, pre + t, Move::Spell { at }) is Some,
    ensures
        rewriting::rewritten(p, pre + t, Move::Spell { at }) == Some(pre + to),
        tame(to, p, passes, k),
{
    let s = pre + t;
    let l = pre.len() as int;
    lemma_form_in_prefix(pre, t, p, at);
    let (b, width) = structural::form_at(s, p.enc, at)->Some_0;
    assert(at >= l) by {
        if at < l {
            assert(spelled_at(pre, p, at));
        }
    }
    assert(structural::form_at(t, p.enc, at - l) == Some((b, width)));
    assert(at - l + width <= t.len());
    let to = rewriting::spliced(t, at - l, width, b);
    assert(rewriting::spliced(s, at, width, b) =~= pre + to);
    lemma_spell(t, at - l, p, passes, k);
    to
}

/// Lowercasing changes nothing in the prefix.
proof fn lemma_step_lower(
    pre: Seq<u8>,
    t: Seq<u8>,
    p: Parsing,
    passes: nat,
    k: int,
    at: int,
) -> (to:
    Seq<u8>)
    requires
        pristine(pre, p),
        tame(t, p, passes, k),
        rewriting::rewritten(p, pre + t, Move::Lower { at }) is Some,
    ensures
        rewriting::rewritten(p, pre + t, Move::Lower { at }) == Some(pre + to),
        tame(to, p, passes, k),
{
    let s = pre + t;
    let l = pre.len() as int;
    if at < l {
        assert(pre[at] == s[at]);
        assert(s.update(at, anchor::lower(s[at])) =~= s);
        t
    } else {
        let to = t.update(at - l, anchor::lower(t[at - l]));
        assert(s.update(at, anchor::lower(s[at])) =~= pre + to);
        lemma_lower(t, at - l, p, passes, k);
        to
    }
}

/// There is no NUL to end the path at.
proof fn lemma_step_truncate(pre: Seq<u8>, t: Seq<u8>, p: Parsing, passes: nat, k: int, at: int)
    requires
        pristine(pre, p),
        tame(t, p, passes, k),
    ensures
        rewriting::rewritten(p, pre + t, Move::Truncate { at }) is None,
{
    let s = pre + t;
    let l = pre.len() as int;
    if 0 <= at < s.len() && s[at] == 0 {
        if at < l {
            assert(pre[at] == 0);
        } else {
            let now = percent::decode_times(t, 0);
            assert(now == t);
            assert(climbing::dots(now, p) <= k);
            assert(t[at - l] == 0);
            assert(t.contains(0));
        }
    }
}

/// Every move keeps a path on track.
proof fn lemma_move(
    q: Seq<u8>,
    k: nat,
    p: Parsing,
    state: State,
    step: Move,
    r: nat,
    t: Seq<u8>,
) -> (out: (nat, Seq<u8>))
    requires
        pristine(q, p),
        on_track(q, k, p, state, r, t),
        rewriting::moved(p, state, step) is Some,
    ensures
        on_track(q, k, p, rewriting::moved(p, state, step)->Some_0, out.0, out.1),
{
    let l = lemma_raised(q, r);
    let pre = q.take(l);
    lemma_shorter_pristine(q, l, p);
    let n = state.passes;
    match step {
        Move::Decode => {
            lemma_step_decode(pre, t, p, n, k - r);
            (r, percent::decode(t))
        },
        Move::Unescape { at } => (r, lemma_step_unescape(pre, t, p, n, k - r, at)),
        Move::Merge { at } => (r, lemma_step_merge(pre, t, p, n, k - r, at)),
        Move::Strip { at, end } => (r, lemma_step_strip(pre, t, p, n, k - r, at, end)),
        Move::Stay { at } => (r, lemma_step_stay(pre, t, p, n, k - r, at)),
        Move::Climb { at } => lemma_climb(q, k, p, state, at, r, t, l),
        Move::Backslash { at } => (r, lemma_step_backslash(pre, t, p, n, k - r, at)),
        Move::Spell { at } => (r, lemma_step_spell(pre, t, p, n, k - r, at)),
        Move::Lower { at } => (r, lemma_step_lower(pre, t, p, n, k - r, at)),
        Move::Truncate { at } => {
            lemma_step_truncate(pre, t, p, n, k - r, at);
            (r, t)
        },
    }
}

/// A looser bound.
proof fn lemma_tamer(t: Seq<u8>, p: Parsing, passes: nat, a: int, b: int)
    requires
        tame(t, p, passes, a),
        a <= b,
    ensures
        tame(t, p, passes, b),
{
    assert forall|n: nat| n <= passes implies {
        &&& climbing::dots(#[trigger] percent::decode_times(t, n), p) <= b
        &&& !percent::decode_times(t, n).contains(0)
    } by {
        assert(climbing::dots(percent::decode_times(t, n), p) <= a);
    }
}

/// Dropping `..` and the segment before it keeps a path on track.
proof fn lemma_climb(
    q: Seq<u8>,
    k: nat,
    p: Parsing,
    state: State,
    at: int,
    r: nat,
    t: Seq<u8>,
    l: int,
) -> (out: (nat, Seq<u8>))
    requires
        pristine(q, p),
        on_track(q, k, p, state, r, t),
        rewriting::moved(p, state, Move::Climb { at }) is Some,
        rewriting::after_slash(q, l),
        anchor::raised(q, r) == q.take(l),
    ensures
        on_track(
            q,
            k,
            p,
            rewriting::moved(p, state, Move::Climb { at })->Some_0,
            out.0,
            out.1,
        ),
{
    let pre = q.take(l);
    lemma_shorter_pristine(q, l, p);
    let s = state.bytes;
    assert(s == pre + t);
    assert(forall|i: int| 0 <= i < l ==> s[i] == pre[i]);
    assert(forall|i: int| l <= i < s.len() ==> s[i] == t[i - l]);
    let next = rewriting::moved(p, state, Move::Climb { at })->Some_0;
    let two = seq![0x2Eu8, 0x2Eu8];
    let end = rewriting::behind_slash(s, at + 2);
    let slash = at + 2 < s.len();
    assert(at >= l) by {
        if at < l {
            assert(pre.last() == 0x2F);
            assert(pre[at] == 0x2E);
            assert(at + 1 < l);
            assert(s[at + 1] == pre[at + 1]);
            assert(at + 2 < l);
            assert(s[at + 2] == pre[at + 2]);
            assert(dots_at(pre, at));
        }
    }
    let from = rewriting::parent_start(s, at);
    let v = t.skip(end - l);
    assert(s.skip(end) =~= v);
    if at == l {
        let none = Seq::<u8>::empty();
        if slash {
            assert(t =~= none + (two + seq![0x2Fu8]) + v);
        } else {
            assert(t =~= none + two + v);
        }
        lemma_stay(none, two, v, slash, p, state.passes, k - r);
        assert(none + v =~= v);
        if l == 1 {
            assert(s.take(1) =~= pre);
            assert(next.bytes =~= pre + v);
            lemma_tamer(v, p, state.passes, k - r - 1, k - r);
            (r, v)
        } else {
            let c = rewriting::segment_start(s, l - 1);
            assert(from == c);
            lemma_same_start(s, pre, l - 1);
            lemma_through_is_start(pre, l - 1);
            lemma_segment_start(pre, l - 1);
            assert(pre.drop_last() =~= pre.take(l - 1));
            assert(pre != anchor::root());
            let up = anchor::through_slash(pre.drop_last());
            assert(up == pre.take(c));
            assert(anchor::raised(pre, 1) == up) by {
                reveal_with_fuel(anchor::raised, 2);
            }
            lemma_raised_more(q, r, 1);
            assert(anchor::raised(q, r + 1) == up);
            assert(s.take(c) =~= pre.take(c));
            assert(next.bytes =~= up + v);
            (r + 1, v)
        }
    } else {
        lemma_segment_start(s, at - 1);
        let c = rewriting::segment_start(s, at - 1);
        assert(from == c);
        assert(c >= l) by {
            if c < l {
                assert(s[l - 1] == pre[l - 1]);
                assert(pre[l - 1] == pre.last());
                assert(c <= l - 1 < at - 1);
                assert(s[l - 1] != 0x2F);
            }
        }
        lemma_cut_behind(pre, t, c, end);
        let u = t.take(c - l);
        let x = t.subrange(c - l, at - 1 - l);
        assert(climbing::slashed(u)) by {
            if u.len() > 0 {
                assert(u.last() == s[c - 1]);
            }
        }
        // First the segment before goes, then the `..` itself.
        let w = t.skip(at - l);
        assert(t[at - 1 - l] == s[at - 1]);
        assert(t =~= u + (x + seq![0x2Fu8]) + w);
        lemma_drop_segment(u, x, w, p, state.passes, k - r);
        if slash {
            assert(u + w =~= u + (two + seq![0x2Fu8]) + v);
        } else {
            assert(u + w =~= u + two + v);
        }
        lemma_stay(u, two, v, slash, p, state.passes, k - r);
        lemma_tamer(u + v, p, state.passes, k - r - 1, k - r);
        (r, u + v)
    }
}

/// The walk back looks at what lies before only.
proof fn lemma_same_start(s: Seq<u8>, pre: Seq<u8>, at: int)
    requires
        0 <= at <= pre.len() <= s.len(),
        forall|i: int| 0 <= i < pre.len() ==> s[i] == pre[i],
    ensures
        rewriting::segment_start(s, at) == rewriting::segment_start(pre, at),
    decreases at,
{
    if at > 0 {
        assert(s[at - 1] == pre[at - 1]);
        if s[at - 1] != 0x2F {
            lemma_same_start(s, pre, at - 1);
        }
    }
}

/// Any moves keep a path on track.
pub proof fn lemma_moves(
    q: Seq<u8>,
    k: nat,
    p: Parsing,
    start: State,
    moves: Seq<Move>,
    t: Seq<u8>,
) -> (out: (nat, Seq<u8>))
    requires
        pristine(q, p),
        on_track(q, k, p, start, 0, t),
        rewriting::after(p, start, moves) is Some,
    ensures
        on_track(q, k, p, rewriting::after(p, start, moves)->Some_0, out.0, out.1),
    decreases moves.len(),
{
    if moves.len() == 0 {
        (0, t)
    } else {
        let (r, u) = lemma_moves(q, k, p, start, moves.drop_last(), t);
        let state = rewriting::after(p, start, moves.drop_last())->Some_0;
        lemma_move(q, k, p, state, moves.last(), r, u)
    }
}

} // verus!
