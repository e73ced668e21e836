//! What a subtree covers: the paths of its prefix, and everything below them.

use vstd::prelude::*;
use vstd::string::*;

use crate::diagnostics;
use crate::exclusive_laws;
use crate::pattern;
use crate::pattern::{Seg, Shape};
use crate::registration;
use crate::routing;
use crate::routing::Tail;

verus! {

/// Joining two texts by a slash joins their parts.
pub proof fn lemma_split_join(x: Seq<char>, y: Seq<char>)
    ensures
        pattern::split(x + seq!['/'] + y) == pattern::split(x) + pattern::split(y),
    decreases x.len(),
{
    let s = x + seq!['/'] + y;
    pattern::lemma_next_char(x, '/', 0);
    pattern::lemma_next_char(s, '/', 0);
    let k = pattern::next_char(x, '/', 0);
    let m = pattern::next_char(s, '/', 0);
    assert(forall|j: int| 0 <= j < x.len() ==> s[j] == x[j]);
    assert(s[x.len() as int] == '/');
    assert(m == k) by {
        if m < k {
            assert(x[m] != '/');
        }
        if k < m {
            assert(s[k] != '/');
        }
    }
    if k < x.len() {
        lemma_split_join(x.skip(k + 1), y);
        assert(s.take(k) =~= x.take(k));
        assert(s.skip(k + 1) =~= x.skip(k + 1) + seq!['/'] + y);
        assert(pattern::split(s) =~= pattern::split(x) + pattern::split(y));
    } else {
        assert(s.take(k) =~= x);
        assert(s.skip(k + 1) =~= y);
        assert(pattern::split(s) =~= pattern::split(x) + pattern::split(y));
    }
}

/// The catch-all of a subtree.
spec fn rest_text() -> Seq<char> {
    seq!['{', '*', 'r', 'e', 's', 't', '}']
}

proof fn lemma_rest_text()
    ensures
        "{*rest}"@ == rest_text(),
        "/"@ == seq!['/'],
        "/{*rest}"@ == seq!['/'] + rest_text(),
        pattern::split(rest_text()) == seq![rest_text()],
        pattern::brace_segment(rest_text()) == Ok::<Seg, pattern::LowerError>(Seg::CatchAll),
{
    reveal_strlit("{*rest}");
    reveal_strlit("/");
    reveal_strlit("/{*rest}");
    let text = rest_text();
    assert("{*rest}"@ =~= text);
    assert("/"@ =~= seq!['/']);
    assert("/{*rest}"@ =~= seq!['/'] + text);
    pattern::lemma_next_char(text, '/', 0);
    pattern::lemma_next_char(text, '}', 1);
    let k = pattern::next_char(text, '/', 0);
    assert(k == text.len());
    let close = pattern::next_char(text, '}', 1);
    assert(close == 6) by {
        assert(text[6] == '}');
        if close < 6 {
            assert(text[close] == '}');
        }
    }
    let inner = text.subrange(1, close);
    assert(inner =~= seq!['*', 'r', 'e', 's', 't']);
    assert(!inner.skip(1).contains('*'));
    assert(pattern::opening(text, 0) == pattern::Opening::At(0));
}

/// Whether the prefix can be that of a subtree: it is a valid pattern, the root or one with
/// segments, and does not end in a catch-all.
pub open spec fn subtree_prefix(prefix: Seq<char>) -> bool {
    &&& pattern::lowered(prefix) matches Ok(shape) && !diagnostics::open_ended(shape)
    &&& prefix == seq!['/'] || pattern::pattern_parts(prefix).len() > 0
}

/// A pattern whose parts are those of another one, with the given end.
proof fn lemma_same_parts(p: Seq<char>, q: Seq<char>, i: int, more: bool)
    requires
        0 <= i <= pattern::pattern_parts(p).len(),
        pattern::lowered_from(p, i) is Ok,
        forall|j: int|
            0 <= j < pattern::lowered_from(p, i)->Ok_0.segments.len()
                ==> !((#[trigger] pattern::lowered_from(p, i)->Ok_0.segments[j]) is CatchAll),
        pattern::pattern_parts(q) == if more {
            pattern::pattern_parts(p).push(rest_text())
        } else {
            pattern::pattern_parts(p)
        },
        more ==> !pattern::ends_in_slash(q),
    ensures
        pattern::lowered_from(q, i) == Ok::<Shape, pattern::LowerError>(
            Shape {
                segments: if more {
                    pattern::lowered_from(p, i)->Ok_0.segments.push(Seg::CatchAll)
                } else {
                    pattern::lowered_from(p, i)->Ok_0.segments
                },
                trailing_slash: pattern::ends_in_slash(q),
            },
        ),
    decreases pattern::pattern_parts(p).len() - i,
{
    lemma_rest_text();
    let parts = pattern::pattern_parts(p);
    let others = pattern::pattern_parts(q);
    if i < parts.len() {
        let shape = pattern::lowered_from(p, i)->Ok_0;
        let rest = pattern::lowered_from(p, i + 1)->Ok_0;
        assert(shape.segments[0] == pattern::lower_part(p, i)->Ok_0);
        assert(parts[i] == others[i]);
        assert(!(shape.segments[0] is CatchAll));
        assert forall|j: int| 0 <= j < rest.segments.len() implies !((
        #[trigger] rest.segments[j]) is CatchAll) by {
            assert(shape.segments[j + 1] == rest.segments[j]);
        }
        lemma_same_parts(p, q, i + 1, more);
        assert(pattern::lower_part(q, i) == pattern::lower_part(p, i));
        if more {
            assert(seq![shape.segments[0]] + rest.segments.push(Seg::CatchAll)
                =~= shape.segments.push(Seg::CatchAll));
        }
    } else if more {
        assert(others[i] == rest_text());
        assert(pattern::lower_part(q, i) == Ok::<Seg, pattern::LowerError>(Seg::CatchAll));
        let end = pattern::lowered_from(q, i + 1);
        assert(end == Ok::<Shape, pattern::LowerError>(
            Shape { segments: Seq::empty(), trailing_slash: false },
        ));
        assert(seq![Seg::CatchAll] + Seq::<Seg>::empty() =~= Seq::<Seg>::empty().push(
            Seg::CatchAll,
        ));
    }
}

/// The patterns of a subtree with segments lower to the prefix with each of the endings.
proof fn lemma_subtree_shapes(prefix: Seq<char>)
    requires
        subtree_prefix(prefix),
        prefix != seq!['/'],
    ensures
        ({
            let segs = pattern::lowered(prefix)->Ok_0.segments;
            let texts = registration::subtree_texts(prefix);
            let n = texts.len();
            &&& segs.len() > 0
            &&& pattern::grammatical(Shape { segments: segs, trailing_slash: true })
            &&& forall|j: int| 0 <= j < segs.len() ==> !((#[trigger] segs[j]) is CatchAll)
            &&& n == if pattern::ends_in_slash(prefix) {
                2nat
            } else {
                3
            }
            &&& n == 3 ==> pattern::lowered(texts[0]) == Ok::<Shape, pattern::LowerError>(
                Shape { segments: segs, trailing_slash: false },
            )
            &&& pattern::lowered(texts[n - 2]) == Ok::<Shape, pattern::LowerError>(
                Shape { segments: segs, trailing_slash: true },
            )
            &&& pattern::lowered(texts[n - 1]) == Ok::<Shape, pattern::LowerError>(
                Shape { segments: segs.push(Seg::CatchAll), trailing_slash: false },
            )
        }),
{
    lemma_rest_text();
    let shape = pattern::lowered(prefix)->Ok_0;
    let segs = shape.segments;
    let body = pattern::pattern_body(prefix);
    pattern::lowered_is_grammatical(prefix);
    assert forall|j: int| 0 <= j < segs.len() implies !((#[trigger] segs[j]) is CatchAll) by {
        if segs[j] is CatchAll {
            assert(segs.last() == segs[j]);
        }
    }
    assert(prefix.len() > 1) by {
        if prefix.len() == 1 {
            assert(prefix =~= seq!['/']);
        }
    }
    let texts = registration::subtree_texts(prefix);
    let parts = pattern::pattern_parts(prefix);
    lemma_trailing(prefix, 0);
    let tail = texts[texts.len() - 1];
    assert(pattern::pattern_body(tail) =~= body + seq!['/'] + rest_text());
    lemma_split_join(body, rest_text());
    assert(pattern::pattern_parts(tail) =~= parts.push(rest_text()));
    assert(tail[0] == '/' && tail.last() == '}');
    lemma_same_parts(prefix, tail, 0, true);
    if !pattern::ends_in_slash(prefix) {
        let slash = texts[1];
        assert(slash[0] == '/' && slash.last() == '/');
        assert(pattern::pattern_body(slash) =~= body);
        lemma_same_parts(prefix, slash, 0, false);
    }
    let wide = Shape { segments: segs, trailing_slash: true };
    assert forall|i: int| 0 <= i < wide.segments.len() implies match #[trigger] wide.segments[i] {
        Seg::Literal(text) => text.len() > 0 && !text.contains('/'),
        Seg::Wildcard => true,
        Seg::CatchAll => i == wide.segments.len() - 1 && !wide.trailing_slash,
    } by {
        assert(!(segs[i] is CatchAll));
    }
}

/// The trailing slash of a shape is that of its text, and there is a segment for each part.
proof fn lemma_trailing(pat: Seq<char>, i: int)
    requires
        0 <= i <= pattern::pattern_parts(pat).len(),
        pattern::lowered_from(pat, i) is Ok,
    ensures
        pattern::lowered_from(pat, i)->Ok_0.trailing_slash == pattern::ends_in_slash(pat),
        pattern::lowered_from(pat, i)->Ok_0.segments.len() == pattern::pattern_parts(pat).len() - i,
    decreases pattern::pattern_parts(pat).len() - i,
{
    if i < pattern::pattern_parts(pat).len() {
        lemma_trailing(pat, i + 1);
    }
}

/// How much of a path body the segments cover, if they cover a part that ends at a slash, or
/// all of it.
spec fn stem(segs: Seq<Seg>, s: Seq<u8>) -> Option<int>
    decreases segs.len(),
{
    if segs.len() == 0 || !routing::step_matches(
        exclusive_laws::step_of(segs[0]),
        routing::head(s),
    ) {
        None
    } else if segs.len() == 1 {
        Some(routing::head(s).len() as int)
    } else if routing::goes_on(s) && routing::rest(s).len() > 0 {
        match stem(segs.skip(1), routing::rest(s)) {
            Some(k) => Some(routing::head(s).len() + 1 + k),
            None => None,
        }
    } else {
        None
    }
}

/// Where the stem ends.
proof fn lemma_stem_end(segs: Seq<Seg>, s: Seq<u8>)
    ensures
        stem(segs, s) matches Some(k) ==> 0 <= k <= s.len() && (k < s.len() ==> s[k] == 0x2F),
    decreases segs.len(),
{
    routing::lemma_next_slash(s, 0);
    if segs.len() > 1 {
        lemma_stem_end(segs.skip(1), routing::rest(s));
        let n = routing::head(s).len() as int;
        if let Some(k) = stem(segs.skip(1), routing::rest(s)) {
            if routing::goes_on(s) && k < routing::rest(s).len() {
                assert(routing::rest(s)[k] == s[n + 1 + k]);
            }
        }
    }
}

/// The terminals of the segments cover a path body by how much of it the segments cover.
proof fn lemma_stem_decides(segs: Seq<Seg>, s: Seq<u8>)
    requires
        segs.len() > 0,
        forall|j: int| 0 <= j < segs.len() ==> !((#[trigger] segs[j]) is CatchAll),
        s.len() > 0,
    ensures
        routing::key_matches(routing::key_from(segs, false), s) <==> stem(segs, s) == Some(
            s.len() as int,
        ),
        routing::key_matches(routing::key_from(segs, true), s) <==> stem(segs, s) == Some(
            s.len() - 1,
        ),
        routing::key_matches(routing::key_from(segs.push(Seg::CatchAll), false), s) <==> (stem(
            segs,
            s,
        ) matches Some(k) && k < s.len() - 1),
    decreases segs.len(),
{
    let more = segs.push(Seg::CatchAll);
    let rest = segs.skip(1);
    routing::lemma_next_slash(s, 0);
    lemma_stem_end(segs, s);
    exclusive_laws::lemma_key_step(segs, false);
    exclusive_laws::lemma_key_step(segs, true);
    assert(more[0] == segs[0]);
    exclusive_laws::lemma_key_step(more, false);
    assert(more.skip(1) =~= rest.push(Seg::CatchAll));
    let a = routing::key_from(segs, false);
    let b = routing::key_from(segs, true);
    let c = routing::key_from(more, false);
    reveal_with_fuel(routing::key_matches, 2);
    if segs.len() == 1 {
        assert(rest =~= Seq::<Seg>::empty());
        assert(routing::key_from(rest, false) == routing::here(Tail::Leaf));
        assert(routing::key_from(rest, true) == routing::here(Tail::LeafSlash));
        assert(rest.push(Seg::CatchAll)[0] is CatchAll);
        assert(routing::key_from(rest.push(Seg::CatchAll), false) == routing::here(Tail::CatchAll));
        assert(routing::below(a).steps.len() == 0);
        assert(routing::below(b).steps.len() == 0);
        assert(routing::below(c).steps.len() == 0);
        assert(a.tail == Tail::Leaf && b.tail == Tail::LeafSlash && c.tail == Tail::CatchAll);
    } else {
        assert forall|j: int| 0 <= j < rest.len() implies !((#[trigger] rest[j]) is CatchAll) by {
            assert(rest[j] == segs[j + 1]);
        }
        exclusive_laws::lemma_key_step(rest, false);
        exclusive_laws::lemma_key_step(rest, true);
        assert(rest.push(Seg::CatchAll)[0] == rest[0]);
        exclusive_laws::lemma_key_step(rest.push(Seg::CatchAll), false);
        assert(a.steps.len() > 1 && b.steps.len() > 1 && c.steps.len() > 1);
        if routing::goes_on(s) && routing::rest(s).len() > 0 {
            lemma_stem_decides(rest, routing::rest(s));
        }
    }
}

/// What the segments cover of a path body they cover of each longer one that goes on with a
/// slash.
proof fn lemma_stem_within(segs: Seq<Seg>, s: Seq<u8>, k: int)
    requires
        named(segs),
        0 < k <= s.len(),
        k < s.len() ==> s[k] == 0x2F,
    ensures
        stem(segs, s.take(k)) == Some(k) <==> stem(segs, s) == Some(k),
    decreases segs.len(),
{
    let t = s.take(k);
    routing::lemma_next_slash(s, 0);
    routing::lemma_next_slash(t, 0);
    let m = routing::next_slash(s, 0);
    let n = routing::next_slash(t, 0);
    assert(forall|j: int| 0 <= j < k ==> t[j] == s[j]);
    assert(n == if m < k {
        m
    } else {
        k
    }) by {
        if m < k {
            if n < m {
                assert(s[n] != 0x2F);
            }
            if m < n {
                assert(t[m] != 0x2F);
            }
        } else if n < k {
            assert(s[n] != 0x2F);
        }
    }
    assert(m <= k) by {
        if m > k {
            assert(s[k] != 0x2F);
        }
    }
    lemma_stem_end(segs, s);
    lemma_stem_end(segs, t);
    assert(routing::head(t) =~= routing::head(s));
    if m < k && segs.len() > 1 {
        let w = k - m - 1;
        assert(routing::rest(t) =~= routing::rest(s).take(w));
        if w > 0 {
            assert(w < routing::rest(s).len() ==> routing::rest(s)[w] == s[k]);
            lemma_named_rest(segs);
            lemma_stem_within(segs.skip(1), routing::rest(s), w);
        } else {
            lemma_named_rest(segs);
            lemma_stem_positive(segs.skip(1), routing::rest(s));
        }
    } else if segs.len() > 1 {
        lemma_named_rest(segs);
        lemma_stem_positive(segs.skip(1), routing::rest(s));
    }
}

/// Whether no literal is empty.
spec fn named(segs: Seq<Seg>) -> bool {
    forall|j: int| 0 <= j < segs.len() ==> ((#[trigger] segs[j]) matches Seg::Literal(text)
        ==> text.len() > 0 && !text.contains('/'))
}

proof fn lemma_named_rest(segs: Seq<Seg>)
    requires
        named(segs),
        segs.len() > 0,
    ensures
        named(segs.skip(1)),
{
    let rest = segs.skip(1);
    assert forall|j: int| 0 <= j < rest.len() implies ((#[trigger] rest[j]) matches Seg::Literal(
        text,
    ) ==> text.len() > 0 && !text.contains('/')) by {
        assert(rest[j] == segs[j + 1]);
    }
}

/// A stem is not empty.
proof fn lemma_stem_positive(segs: Seq<Seg>, s: Seq<u8>)
    requires
        named(segs),
    ensures
        stem(segs, s) matches Some(k) ==> k > 0,
{
    lemma_stem_end(segs, s);
    if segs.len() > 0 {
        if let Seg::Literal(text) = segs[0] {
            exclusive_laws::lemma_plain_text(text);
        }
        if segs.len() > 1 {
            lemma_stem_end(segs.skip(1), routing::rest(s));
        }
    }
}

/// Whether one of the patterns of the subtree covers the path.
pub open spec fn subtree_covers(prefix: Seq<char>, path: Seq<u8>) -> bool {
    exists|i: int|
        0 <= i < registration::subtree_texts(prefix).len() && routing::covers(
            routing::key_of(
                pattern::lowered(#[trigger] registration::subtree_texts(prefix)[i])->Ok_0,
            ),
            path,
        )
}

/// Whether the first `k` bytes of the path are a path that the prefix covers, not counting
/// its trailing slash, and the path ends there or goes on with a slash.
pub open spec fn prefix_reaches(prefix: Seq<char>, path: Seq<u8>, k: int) -> bool {
    &&& 0 <= k <= path.len()
    &&& routing::covers(
        routing::key_of(
            (Shape { segments: pattern::lowered(prefix)->Ok_0.segments, trailing_slash: false }),
        ),
        path.take(k),
    )
    &&& k < path.len() ==> path[k] == 0x2F
}

/// Where a prefix with segments reaches.
proof fn lemma_reaches(prefix: Seq<char>, path: Seq<u8>, k: int)
    requires
        subtree_prefix(prefix),
        prefix != seq!['/'],
        path.len() > 1,
        path[0] == 0x2F,
    ensures
        prefix_reaches(prefix, path, k) <==> 1 < k <= path.len() && stem(
            pattern::lowered(prefix)->Ok_0.segments,
            path.skip(1),
        ) == Some(k - 1),
{
    lemma_subtree_shapes(prefix);
    let segs = pattern::lowered(prefix)->Ok_0.segments;
    let s = path.skip(1);
    assert(named(segs)) by {
        let wide = Shape { segments: segs, trailing_slash: true };
        assert(forall|j: int| 0 <= j < segs.len() ==> wide.segments[j] == #[trigger] segs[j]);
    }
    lemma_stem_positive(segs, s);
    lemma_stem_end(segs, s);
    exclusive_laws::lemma_key_step(segs, false);
    if 1 < k <= path.len() {
        assert(path.take(k).skip(1) =~= s.take(k - 1));
        lemma_stem_decides(segs, s.take(k - 1));
        if k < path.len() {
            assert(s[k - 1] == path[k]);
            if path[k] == 0x2F {
                lemma_stem_within(segs, s, k - 1);
            }
        } else {
            lemma_stem_within(segs, s, k - 1);
        }
    }
}

/// The root subtree covers every path.
proof fn lemma_root_covers(path: Seq<u8>)
    ensures
        subtree_covers(seq!['/'], path) <==> path.len() > 0 && path[0] == 0x2F,
{
    lemma_rest_text();
    let prefix = seq!['/'];
    let texts = registration::subtree_texts(prefix);
    let tail = texts[1];
    assert(pattern::pattern_body(prefix) =~= Seq::<char>::empty());
    assert(pattern::lowered(texts[0]) == Ok::<Shape, pattern::LowerError>(
        Shape { segments: Seq::empty(), trailing_slash: false },
    ));
    assert(tail[0] == '/' && tail.last() == '}');
    assert(pattern::pattern_body(tail) =~= rest_text());
    assert(pattern::pattern_parts(tail) =~= pattern::pattern_parts(prefix).push(rest_text()));
    lemma_same_parts(prefix, tail, 0, true);
    let open = pattern::lowered(tail)->Ok_0;
    assert(open.segments[0] is CatchAll);
    assert(routing::key_of(open) == routing::here(Tail::CatchAll));
    if path.len() > 0 && path[0] == 0x2F {
        if path.len() == 1 {
            assert(routing::covers(routing::key_of(pattern::lowered(texts[0])->Ok_0), path));
        } else {
            assert(routing::covers(routing::key_of(pattern::lowered(texts[1])->Ok_0), path));
        }
    }
}

/// A subtree covers what its prefix covers and everything below it. With a trailing slash it
/// leaves out the bare prefix. The subtree of the root covers every path.
pub proof fn subtrees_cover_everything_below(prefix: Seq<char>, path: Seq<u8>)
    requires
        subtree_prefix(prefix),
    ensures
        subtree_covers(prefix, path) <==> if prefix == seq!['/'] {
            path.len() > 0 && path[0] == 0x2F
        } else if prefix.last() == '/' {
            exists|k: int| #[trigger] prefix_reaches(prefix, path, k) && k < path.len()
        } else {
            exists|k: int| #[trigger] prefix_reaches(prefix, path, k)
        },
{
    if prefix == seq!['/'] {
        lemma_root_covers(path);
    } else {
        lemma_subtree_shapes(prefix);
        let segs = pattern::lowered(prefix)->Ok_0.segments;
        let texts = registration::subtree_texts(prefix);
        let n = texts.len();
        exclusive_laws::lemma_key_step(segs, false);
        exclusive_laws::lemma_key_step(segs, true);
        assert(segs.push(Seg::CatchAll)[0] == segs[0]);
        exclusive_laws::lemma_key_step(segs.push(Seg::CatchAll), false);
        if path.len() > 1 && path[0] == 0x2F {
            let s = path.skip(1);
            lemma_stem_decides(segs, s);
            lemma_stem_end(segs, s);
            assert forall|k: int| #[trigger] prefix_reaches(prefix, path, k) <==> 1 < k
                <= path.len() && stem(segs, s) == Some(k - 1) by {
                lemma_reaches(prefix, path, k);
            }
            if let Some(k) = stem(segs, s) {
                assert(named(segs)) by {
                    let wide = Shape { segments: segs, trailing_slash: true };
                    assert(forall|j: int|
                        0 <= j < segs.len() ==> wide.segments[j] == #[trigger] segs[j]);
                }
                lemma_stem_positive(segs, s);
                assert(prefix_reaches(prefix, path, k + 1));
                if k == s.len() {
                    if n == 3 {
                        assert(routing::covers(
                            routing::key_of(pattern::lowered(texts[0])->Ok_0),
                            path,
                        ));
                    }
                } else if k == s.len() - 1 {
                    assert(routing::covers(
                        routing::key_of(pattern::lowered(texts[n - 2])->Ok_0),
                        path,
                    ));
                } else {
                    assert(routing::covers(
                        routing::key_of(pattern::lowered(texts[n - 1])->Ok_0),
                        path,
                    ));
                }
            }
        }
        if subtree_covers(prefix, path) {
            let i = choose|i: int|
                0 <= i < texts.len() && routing::covers(
                    routing::key_of(pattern::lowered(#[trigger] texts[i])->Ok_0),
                    path,
                );
            assert(i == n - 1 || i == n - 2 || (n == 3 && i == 0));
            assert(path.len() > 1 && path[0] == 0x2F);
        }
    }
}

} // verus!
