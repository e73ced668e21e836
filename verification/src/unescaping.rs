//! Decoding takes no dot-segment away: a path that is decoded in places has no more of them
//! than the path that is decoded throughout.

use vstd::prelude::*;

use crate::climbing;
use crate::percent;
use crate::rewriting;
use crate::rewriting::Parsing;
use crate::structural;
use crate::structural::Encodings;

verus! {

/// A character that has no part in a dot-segment or its ends.
spec fn inert(c: u8) -> bool {
    c != 0x2E && c != 0x2F && c != 0x3B && c != 0x5C
}

/// Whether the characters `g` are the characters `f` with some inert ones replaced, each run
/// of them by anything.
#[verifier::opaque]
spec fn refines(f: Seq<u8>, g: Seq<u8>) -> bool
    decreases f.len(),
{
    ||| f.len() == 0 && g.len() == 0
    ||| f.len() > 0 && g.len() > 0 && f[0] == g[0] && refines(f.skip(1), g.skip(1))
    ||| exists|m: int, n: int| #[trigger] replaced(f, g, m, n) && refines(f.skip(m), g.skip(n))
}

/// Whether the first `m` characters are a run that the first `n` may stand for.
spec fn replaced(f: Seq<u8>, g: Seq<u8>, m: int, n: int) -> bool {
    &&& 0 < m <= f.len()
    &&& 0 <= n <= g.len()
    &&& forall|i: int| 0 <= i < m ==> inert(#[trigger] f[i])
}

/// A character may be kept.
proof fn lemma_keep(f: Seq<u8>, g: Seq<u8>)
    requires
        f.len() > 0,
        g.len() > 0,
        f[0] == g[0],
        refines(f.skip(1), g.skip(1)),
    ensures
        refines(f, g),
{
    reveal(refines);
}

/// A run of inert characters may be replaced.
proof fn lemma_replace(f: Seq<u8>, g: Seq<u8>, m: int, n: int)
    requires
        0 < m <= f.len(),
        0 <= n <= g.len(),
        forall|i: int| 0 <= i < m ==> inert(#[trigger] f[i]),
        refines(f.skip(m), g.skip(n)),
    ensures
        refines(f, g),
{
    reveal(refines);
    assert(replaced(f, g, m, n));
}

/// A character that is not inert is kept.
proof fn lemma_kept(f: Seq<u8>, g: Seq<u8>)
    requires
        refines(f, g),
        f.len() > 0,
        !inert(f[0]),
    ensures
        g.len() > 0,
        g[0] == f[0],
        refines(f.skip(1), g.skip(1)),
{
    reveal(refines);
    if exists|m: int, n: int| #[trigger] replaced(f, g, m, n) && refines(f.skip(m), g.skip(n)) {
        let (m, n) = choose|m: int, n: int| #[trigger]
            replaced(f, g, m, n) && refines(f.skip(m), g.skip(n));
        assert(inert(f[0]));
    }
}

/// Where the first separator has gone.
proof fn lemma_divide_kept(f: Seq<u8>, g: Seq<u8>, backslash: bool, k: int) -> (j: int)
    requires
        refines(f, g),
        0 <= k <= f.len(),
        k < f.len() ==> climbing::divides(f[k], backslash),
        forall|i: int| 0 <= i < k ==> !climbing::divides(#[trigger] f[i], backslash),
    ensures
        0 <= j <= g.len(),
        refines(f.take(k), g.take(j)),
        k == f.len() ==> j == g.len(),
        k < f.len() ==> j < g.len() && g[j] == f[k] && refines(f.skip(k + 1), g.skip(j + 1)),
    decreases f.len(),
{
    reveal(refines);
    if k == f.len() {
        assert(f.take(k) =~= f);
        assert(g.take(g.len() as int) =~= g);
        g.len() as int
    } else if k == 0 {
        lemma_kept(f, g);
        assert(f.take(0) =~= Seq::<u8>::empty());
        assert(g.take(0) =~= Seq::<u8>::empty());
        0
    } else if g.len() > 0 && f[0] == g[0] && refines(f.skip(1), g.skip(1)) {
        let h = f.skip(1);
        assert forall|i: int| 0 <= i < k - 1 implies !climbing::divides(#[trigger] h[i], backslash) by {
            assert(h[i] == f[i + 1]);
        }
        let j = lemma_divide_kept(h, g.skip(1), backslash, k - 1);
        assert(f.take(k).skip(1) =~= h.take(k - 1));
        assert(g.take(j + 1).skip(1) =~= g.skip(1).take(j));
        assert(h.skip(k) =~= f.skip(k + 1));
        assert(g.skip(1).skip(j + 1) =~= g.skip(j + 2));
        j + 1
    } else {
        let (m, n) = choose|m: int, n: int| #[trigger]
            replaced(f, g, m, n) && refines(f.skip(m), g.skip(n));
        assert(m <= k) by {
            if m > k {
                assert(inert(f[k]));
            }
        }
        let h = f.skip(m);
        let y = g.skip(n);
        assert forall|i: int| 0 <= i < k - m implies !climbing::divides(#[trigger] h[i], backslash) by {
            assert(h[i] == f[i + m]);
        }
        let j = lemma_divide_kept(h, y, backslash, k - m);
        assert(f.take(k).skip(m) =~= h.take(k - m));
        assert(g.take(j + n).skip(n) =~= y.take(j));
        assert(h.skip(k - m + 1) =~= f.skip(k + 1));
        assert(y.skip(j + 1) =~= g.skip(j + n + 1));
        assert(replaced(f.take(k), g.take(j + n), m, n)) by {
            assert forall|i: int| 0 <= i < m implies inert(#[trigger] f.take(k)[i]) by {
                assert(inert(f[i]));
            }
        }
        j + n
    }
}

/// A dot-segment stays one.
proof fn lemma_dots_kept(x: Seq<u8>, y: Seq<u8>, backslash: bool)
    requires
        refines(x, y),
        climbing::is_dots(x),
    ensures
        climbing::dot_segs(y, backslash) >= 1,
{
    lemma_kept(x, y);
    let a = x.skip(1);
    let b = y.skip(1);
    if x.len() > 1 {
        assert(a[0] == x[1]);
        lemma_kept(a, b);
        assert(b[0] == y[1]);
        if x[1] == 0x2E && x.len() > 2 && x[2] == 0x3B {
            assert(a.skip(1)[0] == x[2]);
            lemma_kept(a.skip(1), b.skip(1));
            assert(b.skip(1)[0] == y[2]);
        } else if x[1] == 0x2E {
            assert(x.len() == 2);
            assert(a.skip(1).len() == 0);
            lemma_nothing(a.skip(1), b.skip(1));
        }
    } else {
        lemma_nothing(a, b);
    }
    climbing::lemma_next_divide(y, backslash, 0);
    let k = climbing::next_divide(y, backslash, 0);
    assert(!climbing::divides(0x2E, backslash) && !climbing::divides(0x3B, backslash));
    assert(k >= 1);
    let front = y.take(k);
    assert(front[0] == y[0]);
    if y.len() > 1 {
        assert(k >= 2);
        assert(front[1] == y[1]);
        if y[1] == 0x2E && y.len() > 2 {
            assert(k >= 3);
            assert(front[2] == y[2]);
        }
    }
    assert(climbing::is_dots(front));
}

/// Nothing stands for nothing only.
proof fn lemma_nothing(f: Seq<u8>, g: Seq<u8>)
    requires
        refines(f, g),
        f.len() == 0,
    ensures
        g.len() == 0,
{
    reveal(refines);
    if exists|m: int, n: int| #[trigger] replaced(f, g, m, n) && refines(f.skip(m), g.skip(n)) {
        let (m, n) = choose|m: int, n: int| #[trigger]
            replaced(f, g, m, n) && refines(f.skip(m), g.skip(n));
        assert(0 < m <= f.len());
    }
}

/// There are no fewer dot-segments.
proof fn lemma_refined_dots(f: Seq<u8>, g: Seq<u8>, backslash: bool)
    requires
        refines(f, g),
    ensures
        climbing::dot_segs(f, backslash) <= climbing::dot_segs(g, backslash),
    decreases f.len(),
{
    climbing::lemma_next_divide(f, backslash, 0);
    let k = climbing::next_divide(f, backslash, 0);
    let j = lemma_divide_kept(f, g, backslash, k);
    if climbing::is_dots(f.take(k)) {
        lemma_dots_kept(f.take(k), g.take(j), backslash);
    }
    if k < f.len() {
        lemma_refined_dots(f.skip(k + 1), g.skip(j + 1), backslash);
        assert(g =~= g.take(j) + seq![g[j]] + g.skip(j + 1));
        climbing::lemma_split_dots(g.take(j), g[j], g.skip(j + 1), backslash);
    } else {
        assert(g.take(j) =~= g);
    }
}

/// The characters of an escape.
proof fn lemma_escape_faces(t: Seq<u8>, enc: Encodings)
    requires
        percent::escape_at(t, 0) is Some,
    ensures
        climbing::faces(t, enc) == t.take(3) + climbing::faces(t.skip(3), enc),
        forall|i: int| 0 <= i < 3 ==> inert(#[trigger] t[i]),
{
    let one = t.skip(1);
    let two = t.skip(2);
    climbing::lemma_width(t, enc, 0);
    climbing::lemma_width(one, enc, 0);
    climbing::lemma_width(two, enc, 0);
    assert(one[0] == t[1] && two[0] == t[2]);
    assert(one.skip(1) =~= two);
    assert(two.skip(1) =~= t.skip(3));
    assert(structural::form_at(t, enc, 0) is None);
    assert(structural::form_at(one, enc, 0) is None);
    assert(structural::form_at(two, enc, 0) is None);
    assert(climbing::faces(t, enc) == seq![t[0]] + climbing::faces(one, enc));
    assert(climbing::faces(one, enc) == seq![t[1]] + climbing::faces(two, enc));
    assert(climbing::faces(two, enc) == seq![t[2]] + climbing::faces(t.skip(3), enc));
    assert(climbing::faces(t, enc) =~= t.take(3) + climbing::faces(t.skip(3), enc));
}

/// Bytes that decode to a continuation, or to a lead that begins no spelling as it is
/// written, are inert as they are written.
proof fn lemma_run(t: Seq<u8>, enc: Encodings, j: int) -> (m: int)
    requires
        1 <= j <= percent::decode(t).len(),
        percent::decode(t)[0] >= 0x80,
        forall|i: int| 1 <= i < j ==> 0x80 <= #[trigger] percent::decode(t)[i] < 0xC0,
        structural::form_at(t, enc, 0) is None,
    ensures
        0 < m <= t.len(),
        percent::decode(t.skip(m)) == percent::decode(t).skip(j),
        climbing::faces(t, enc) == t.take(m) + climbing::faces(t.skip(m), enc),
        forall|i: int| 0 <= i < m ==> inert(#[trigger] t[i]),
    decreases j,
{
    let d = percent::decode(t);
    let w: int = if percent::escape_at(t, 0) is Some {
        3
    } else {
        1
    };
    let rest = t.skip(w);
    assert(d =~= seq![d[0]] + percent::decode(rest));
    assert(d.skip(1) =~= percent::decode(rest));
    if w == 3 {
        lemma_escape_faces(t, enc);
    } else {
        assert(t[0] == d[0]);
        assert(climbing::faces(t, enc) =~= t.take(1) + climbing::faces(rest, enc));
    }
    if j == 1 {
        w
    } else {
        assert(percent::decode(rest)[0] == d[1]);
        assert forall|i: int| 1 <= i < j - 1 implies 0x80 <= #[trigger] percent::decode(rest)[i]
            < 0xC0 by {
            assert(percent::decode(rest)[i] == d[i + 1]);
        }
        assert(structural::form_at(rest, enc, 0) is None) by {
            assert(rest.len() > 0);
            assert(percent::escape_at(rest, 0) is Some ==> rest[0] == 0x25);
            assert(percent::escape_at(rest, 0) is None ==> rest[0] == d[1]);
        }
        let m = lemma_run(rest, enc, j - 1);
        assert(rest.skip(m) =~= t.skip(w + m));
        assert(percent::decode(rest).skip(j - 1) =~= d.skip(j));
        assert(t.take(w) + rest.take(m) =~= t.take(w + m));
        assert(climbing::faces(t, enc) =~= t.take(w + m) + climbing::faces(t.skip(w + m), enc));
        assert forall|i: int| 0 <= i < w + m implies inert(#[trigger] t[i]) by {
            if i >= w {
                assert(rest[i - w] == t[i]);
            }
        }
        w + m
    }
}

/// A spelling decodes to itself.
proof fn lemma_spelling_decodes(t: Seq<u8>, enc: Encodings)
    requires
        t.len() > 0,
        structural::form_at(t, enc, 0) is Some,
    ensures
        ({
            let w = structural::width_at(t, enc, 0);
            let d = percent::decode(t);
            &&& d.len() > 0
            &&& structural::form_at(d, enc, 0) == structural::form_at(t, enc, 0)
            &&& d.skip(w) == percent::decode(t.skip(w))
        }),
{
    climbing::lemma_width(t, enc, 0);
    let w = structural::width_at(t, enc, 0);
    let d = percent::decode(t);
    let u = t.take(w);
    assert forall|i: int| 0 <= i < u.len() implies climbing::firm(#[trigger] u[i]) by {
        assert(t[i] >= 0x80);
    }
    assert(u + t.skip(w) =~= t);
    climbing::lemma_split_decode(u, t.skip(w));
    climbing::lemma_firm_times(u, 1);
    reveal_with_fuel(percent::decode_times, 2);
    assert(forall|i: int| 0 <= i < w ==> d[i] == t[i]);
    assert(d.skip(w) =~= percent::decode(t.skip(w)));
}

/// Decoding keeps every character that is not inert.
proof fn lemma_decode_refines(t: Seq<u8>, enc: Encodings)
    ensures
        refines(climbing::faces(t, enc), climbing::faces(percent::decode(t), enc)),
    decreases t.len(),
{
    let d = percent::decode(t);
    let f = climbing::faces(t, enc);
    let g = climbing::faces(d, enc);
    if t.len() > 0 {
        climbing::lemma_width(t, enc, 0);
        climbing::lemma_width(d, enc, 0);
        let w = structural::width_at(t, enc, 0);
        let v = structural::width_at(d, enc, 0);
        if structural::form_at(t, enc, 0) is Some {
            lemma_spelling_decodes(t, enc);
            lemma_decode_refines(t.skip(w), enc);
            assert(f.skip(1) =~= climbing::faces(t.skip(w), enc));
            assert(g.skip(1) =~= climbing::faces(d.skip(w), enc));
            lemma_keep(f, g);
        } else if structural::form_at(d, enc, 0) is Some {
            let m = lemma_run(t, enc, v);
            lemma_decode_refines(t.skip(m), enc);
            assert(f.skip(m) =~= climbing::faces(t.skip(m), enc));
            assert(g.skip(1) =~= climbing::faces(d.skip(v), enc));
            lemma_replace(f, g, m, 1);
        } else if percent::escape_at(t, 0) is Some {
            lemma_escape_faces(t, enc);
            lemma_decode_refines(t.skip(3), enc);
            assert(d.skip(1) =~= percent::decode(t.skip(3)));
            assert(f.skip(3) =~= climbing::faces(t.skip(3), enc));
            assert(g.skip(1) =~= climbing::faces(d.skip(1), enc));
            lemma_replace(f, g, 3, 1);
        } else {
            lemma_decode_refines(t.skip(1), enc);
            assert(d.skip(1) =~= percent::decode(t.skip(1)));
            assert(f.skip(1) =~= climbing::faces(t.skip(1), enc));
            assert(g.skip(1) =~= climbing::faces(d.skip(1), enc));
            lemma_keep(f, g);
        }
    } else {
        reveal(refines);
    }
}

/// Decoding takes no dot-segment away.
pub proof fn lemma_decode_dots(t: Seq<u8>, p: Parsing)
    ensures
        climbing::dots(t, p) <= climbing::dots(percent::decode(t), p),
{
    lemma_decode_refines(t, p.enc);
    lemma_refined_dots(
        climbing::faces(t, p.enc),
        climbing::faces(percent::decode(t), p.enc),
        p.backslash,
    );
}

/// Decoding one escape first makes no difference to decoding all.
pub proof fn lemma_unescape_decode(t: Seq<u8>, at: int)
    requires
        percent::escape_at(t, at) is Some,
        climbing::firm(percent::escape_at(t, at)->Some_0),
    ensures
        percent::decode(rewriting::spliced(t, at, 3, percent::escape_at(t, at)->Some_0))
            == percent::decode(t),
    decreases t.len(),
{
    let c = percent::escape_at(t, at)->Some_0;
    let s = rewriting::spliced(t, at, 3, c);
    if at == 0 {
        assert(s.skip(1) =~= t.skip(3));
    } else {
        let w: int = if percent::escape_at(t, 0) is Some {
            3
        } else {
            1
        };
        assert(at >= w);
        assert(forall|i: int| 0 <= i < at ==> s[i] == t[i]);
        assert(s[at] == c);
        assert(percent::escape_at(s, 0) == percent::escape_at(t, 0));
        let rest = t.skip(w);
        assert(percent::escape_at(rest, at - w) == Some(c));
        lemma_unescape_decode(rest, at - w);
        assert(s.skip(w) =~= rewriting::spliced(rest, at - w, 3, c));
    }
}

/// A byte that decoding leaves alone is there afterwards.
pub proof fn lemma_firm_stays(s: Seq<u8>, b: u8)
    requires
        s.contains(b),
        climbing::firm(b),
    ensures
        percent::decode(s).contains(b),
{
    let i = s.index_of(b);
    let u = s.take(i);
    let one = seq![b];
    let v = s.skip(i + 1);
    assert(s =~= u + (one + v));
    climbing::lemma_split_decode(u, one + v);
    climbing::lemma_split_decode(one, v);
    climbing::lemma_firm_byte(b);
    let k = percent::decode(u).len() as int;
    assert(percent::decode(s)[k] == b);
}

} // verus!
