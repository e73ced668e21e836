//! The example paths of the diagnostics are paths that both patterns cover.

use vstd::prelude::*;
use vstd::string::*;

use crate::coverage;
use crate::diagnostics;
use crate::exclusive_laws;
use crate::pattern;
use crate::pattern::{Seg, Shape};
use crate::pattern_laws;
use crate::routing;
use crate::routing::Tail;
use crate::slot::PathEntry;

verus! {

/// Texts encode one after the other.
pub proof fn lemma_encode_concat(a: Seq<char>, b: Seq<char>)
    ensures
        vstd::utf8::encode_utf8(a + b) == vstd::utf8::encode_utf8(a) + vstd::utf8::encode_utf8(b),
    decreases a.len(),
{
    if a.len() == 0 {
        assert(a + b =~= b);
        assert(vstd::utf8::encode_utf8(a) =~= Seq::<u8>::empty());
    } else {
        lemma_encode_concat(a.drop_first(), b);
        assert((a + b).drop_first() =~= a.drop_first() + b);
        let first = vstd::utf8::encode_scalar(a[0] as u32);
        assert(vstd::utf8::encode_utf8(a + b) =~= first + vstd::utf8::encode_utf8(
            a.drop_first() + b,
        ));
    }
}

pub proof fn lemma_encode_slash()
    ensures
        vstd::utf8::encode_utf8(seq!['/']) == seq![0x2Fu8],
{
    assert(0x2Fu32 & 0x7F == 0x2F) by (bit_vector);
    let text = seq!['/'];
    assert(text.drop_first() =~= Seq::<char>::empty());
    assert(vstd::utf8::encode_utf8(text.drop_first()) =~= Seq::<u8>::empty());
    assert(vstd::utf8::encode_utf8(text) =~= seq![0x2Fu8]);
}

/// Whether a path for both patterns ends in a slash that no segment calls for.
spec fn slashed(a: Shape, b: Shape) -> bool {
    (!diagnostics::open_ended(a) && a.trailing_slash) || (!diagnostics::open_ended(b)
        && b.trailing_slash)
}

/// The segments that suit both patterns, from the one at `i` on.
spec fn body_from(a: Shape, b: Shape, capture: Seq<char>, i: int) -> Seq<char>
    decreases diagnostics::longer_len(a, b) - i,
{
    let segment = diagnostics::common_segment(a, b, capture, i);
    if i + 1 < diagnostics::longer_len(a, b) {
        segment + seq!['/'] + body_from(a, b, capture, i + 1)
    } else if slashed(a, b) {
        segment + seq!['/']
    } else {
        segment
    }
}

/// The path so far, then the rest.
proof fn lemma_body_from(a: Shape, b: Shape, capture: Seq<char>, n: int)
    requires
        0 <= n < diagnostics::longer_len(a, b),
    ensures
        diagnostics::common_body(a, b, capture, n as nat) + seq!['/'] + body_from(a, b, capture, n)
            == if slashed(a, b) {
            diagnostics::common_body(a, b, capture, diagnostics::longer_len(a, b)).push('/')
        } else {
            diagnostics::common_body(a, b, capture, diagnostics::longer_len(a, b))
        },
    decreases diagnostics::longer_len(a, b) - n,
{
    let count = diagnostics::longer_len(a, b);
    let before = diagnostics::common_body(a, b, capture, n as nat);
    let segment = diagnostics::common_segment(a, b, capture, n);
    let after = diagnostics::common_body(a, b, capture, (n + 1) as nat);
    assert(after == before + seq!['/'] + segment);
    if n + 1 < count {
        lemma_body_from(a, b, capture, n + 1);
        assert(before + seq!['/'] + body_from(a, b, capture, n) =~= after + seq!['/'] + body_from(
            a,
            b,
            capture,
            n + 1,
        ));
    } else if slashed(a, b) {
        assert(before + seq!['/'] + body_from(a, b, capture, n) =~= after.push('/'));
    } else {
        assert(before + seq!['/'] + body_from(a, b, capture, n) =~= after);
    }
}

/// Whether a pattern can stand in a table: it is grammatical, and a lone slash is the root.
pub open spec fn proper(shape: Shape) -> bool {
    pattern::grammatical(shape) && (shape.segments.len() == 0 ==> !shape.trailing_slash)
}

/// Whether a text can be a segment.
pub open spec fn plain(text: Seq<char>) -> bool {
    text.len() > 0 && !text.contains('/')
}

/// The segment that suits both patterns can be a segment.
proof fn lemma_common_plain(a: Shape, b: Shape, capture: Seq<char>, i: int)
    requires
        pattern::grammatical(a),
        pattern::grammatical(b),
        plain(capture),
    ensures
        plain(diagnostics::common_segment(a, b, capture, i)),
{
    if let Some(text) = diagnostics::literal_at(a, i) {
        assert(a.segments[i] == Seg::Literal(text));
    }
    if let Some(text) = diagnostics::literal_at(b, i) {
        assert(b.segments[i] == Seg::Literal(text));
    }
}

/// The first pattern covers the segments from the one at `i` on.
proof fn lemma_covers_from(a: Shape, b: Shape, capture: Seq<char>, i: int)
    requires
        proper(a),
        proper(b),
        plain(capture),
        diagnostics::same_extent(a, b),
        forall|k: int|
            0 <= k < diagnostics::longer_len(a, b) ==> !(#[trigger] diagnostics::clash_at(a, b, k)),
        0 <= i < a.segments.len(),
    ensures
        routing::key_matches(
            routing::key_from(a.segments.skip(i), a.trailing_slash),
            vstd::utf8::encode_utf8(body_from(a, b, capture, i)),
        ),
        vstd::utf8::encode_utf8(body_from(a, b, capture, i)).len() > 0,
    decreases a.segments.len() - i,
{
    let count = diagnostics::longer_len(a, b);
    let segs = a.segments.skip(i);
    let text = diagnostics::common_segment(a, b, capture, i);
    let segment = vstd::utf8::encode_utf8(text);
    let body = body_from(a, b, capture, i);
    let s = vstd::utf8::encode_utf8(body);
    lemma_common_plain(a, b, capture, i);
    exclusive_laws::lemma_plain_text(text);
    lemma_encode_slash();
    assert(segs[0] == a.segments[i]);
    if i + 1 < count {
        lemma_encode_concat(text + seq!['/'], body_from(a, b, capture, i + 1));
        lemma_encode_concat(text, seq!['/']);
    } else if slashed(a, b) {
        lemma_encode_concat(text, seq!['/']);
    }
    if a.segments[i] is CatchAll {
        assert(routing::key_from(segs, a.trailing_slash) == routing::here(Tail::CatchAll));
    } else {
        exclusive_laws::lemma_key_step(segs, a.trailing_slash);
        let key = routing::key_from(segs, a.trailing_slash);
        assert(segs.skip(1) =~= a.segments.skip(i + 1));
        assert(!diagnostics::clash_at(a, b, i));
        assert(routing::step_matches(key.steps[0], segment));
        if i + 1 < count {
            let rest = vstd::utf8::encode_utf8(body_from(a, b, capture, i + 1));
            assert(s == segment + seq![0x2Fu8] + rest);
            coverage::lemma_split_head(segment, rest);
            if diagnostics::open_ended(a) {
                assert(i + 1 < a.segments.len()) by {
                    if i + 1 == a.segments.len() {
                        assert(a.segments.last() == a.segments[i]);
                    }
                }
            }
            lemma_covers_from(a, b, capture, i + 1);
        } else {
            assert(a.segments.len() == i + 1);
            assert(!diagnostics::open_ended(a));
            assert(slashed(a, b) == a.trailing_slash);
            assert(segs.skip(1) =~= Seq::<Seg>::empty());
            if slashed(a, b) {
                let none = Seq::<u8>::empty();
                assert(s =~= segment + seq![0x2Fu8] + none);
                coverage::lemma_split_head(segment, none);
            } else {
                routing::lemma_next_slash(segment, 0);
                if routing::next_slash(segment, 0) < segment.len() {
                    assert(segment.contains(0x2F));
                }
                assert(routing::head(segment) =~= segment);
            }
        }
    }
}

/// The first pattern covers the path.
proof fn lemma_covers_overlap(a: Shape, b: Shape, capture: Seq<char>)
    requires
        proper(a),
        proper(b),
        plain(capture),
        diagnostics::overlap(a, b, capture) is Some,
    ensures
        routing::covers(
            routing::key_of(a),
            vstd::utf8::encode_utf8(diagnostics::overlap(a, b, capture)->Some_0),
        ),
{
    let count = diagnostics::longer_len(a, b);
    let path = diagnostics::overlap(a, b, capture)->Some_0;
    lemma_encode_slash();
    if count == 0 {
        assert(path =~= seq!['/']);
    } else {
        let body = body_from(a, b, capture, 0);
        lemma_body_from(a, b, capture, 0);
        assert(path =~= seq!['/'] + body);
        lemma_encode_concat(seq!['/'], body);
        lemma_covers_from(a, b, capture, 0);
        assert(a.segments.skip(0) =~= a.segments);
        assert(vstd::utf8::encode_utf8(path).skip(1) =~= vstd::utf8::encode_utf8(body));
    }
}

/// The other way round, the same path.
proof fn lemma_overlap_symmetric(a: Shape, b: Shape, capture: Seq<char>)
    ensures
        diagnostics::overlap(a, b, capture) == diagnostics::overlap(b, a, capture),
{
    let count = diagnostics::longer_len(a, b);
    assert(count == diagnostics::longer_len(b, a));
    assert forall|i: int| #[trigger] diagnostics::clash_at(a, b, i) == diagnostics::clash_at(
        b,
        a,
        i,
    ) by {}
    if forall|i: int| 0 <= i < count ==> !(#[trigger] diagnostics::clash_at(a, b, i)) {
        assert forall|i: int| 0 <= i < count implies !(#[trigger] diagnostics::clash_at(b, a, i)) by {
            assert(!diagnostics::clash_at(a, b, i));
        }
        lemma_body_symmetric(a, b, capture, count);
    } else {
        let i = choose|i: int| 0 <= i < count && #[trigger] diagnostics::clash_at(a, b, i);
        assert(diagnostics::clash_at(b, a, i));
    }
}

proof fn lemma_body_symmetric(a: Shape, b: Shape, capture: Seq<char>, n: nat)
    requires
        forall|i: int| 0 <= i < n ==> !(#[trigger] diagnostics::clash_at(a, b, i)),
    ensures
        diagnostics::common_body(a, b, capture, n) == diagnostics::common_body(b, a, capture, n),
    decreases n,
{
    if n > 0 {
        lemma_body_symmetric(a, b, capture, (n - 1) as nat);
        assert(!diagnostics::clash_at(a, b, n - 1));
    }
}

/// Patterns that cover one path agree on where it ends, and on the literals.
proof fn lemma_common_path(a: Shape, b: Shape, s: Seq<u8>)
    requires
        pattern::grammatical(a),
        pattern::grammatical(b),
        s.len() > 0,
        routing::key_matches(routing::key_of(a), s),
        routing::key_matches(routing::key_of(b), s),
    ensures
        diagnostics::same_extent(a, b),
        forall|i: int| !(#[trigger] diagnostics::clash_at(a, b, i)),
    decreases a.segments.len(),
{
    assert(a.segments.len() > 0 && b.segments.len() > 0);
    if a.segments[0] is CatchAll || b.segments[0] is CatchAll {
        if a.segments[0] is CatchAll {
            assert(a.segments.len() == 1);
            assert(a.segments.last() is CatchAll);
            assert(forall|i: int| diagnostics::literal_at(a, i) is None);
        }
        if b.segments[0] is CatchAll {
            assert(b.segments.len() == 1);
            assert(b.segments.last() is CatchAll);
            assert(forall|i: int| diagnostics::literal_at(b, i) is None);
        }
    } else {
        let c = Shape { segments: a.segments.skip(1), trailing_slash: a.trailing_slash };
        let d = Shape { segments: b.segments.skip(1), trailing_slash: b.trailing_slash };
        lemma_rest_grammatical(a);
        lemma_rest_grammatical(b);
        exclusive_laws::lemma_key_step(a.segments, a.trailing_slash);
        exclusive_laws::lemma_key_step(b.segments, b.trailing_slash);
        let head = routing::head(s);
        assert(!diagnostics::clash_at(a, b, 0)) by {
            if let (Seg::Literal(x), Seg::Literal(y)) = (a.segments[0], b.segments[0]) {
                exclusive_laws::lemma_same_text(x, y);
            }
        }
        if routing::goes_on(s) && routing::rest(s).len() > 0 {
            lemma_common_path(c, d, routing::rest(s));
            assert(c.segments.len() > 0 ==> c.segments.last() == a.segments.last());
            assert(d.segments.len() > 0 ==> d.segments.last() == b.segments.last());
        } else {
            lemma_last_step(a);
            lemma_last_step(b);
        }
        assert forall|i: int| !(#[trigger] diagnostics::clash_at(a, b, i)) by {
            if i > 0 {
                if routing::goes_on(s) && routing::rest(s).len() > 0 {
                    assert(!diagnostics::clash_at(c, d, i - 1));
                    if i < a.segments.len() {
                        assert(c.segments[i - 1] == a.segments[i]);
                    }
                    if i < b.segments.len() {
                        assert(d.segments[i - 1] == b.segments[i]);
                    }
                }
            }
        }
    }
}

/// A terminal of one step has one segment.
proof fn lemma_last_step(a: Shape)
    requires
        pattern::grammatical(a),
        a.segments.len() > 0,
        !(a.segments[0] is CatchAll),
        routing::key_of(a).steps.len() == 1,
        routing::key_of(a).tail != Tail::CatchAll,
    ensures
        a.segments.len() == 1,
        a.trailing_slash == (routing::key_of(a).tail == Tail::LeafSlash),
{
    exclusive_laws::lemma_key_step(a.segments, a.trailing_slash);
    let rest = a.segments.skip(1);
    assert(routing::below(routing::key_of(a)).steps.len() == 0);
    if rest.len() > 0 {
        if rest[0] is CatchAll {
            assert(routing::key_from(rest, a.trailing_slash).tail == Tail::CatchAll);
        } else {
            exclusive_laws::lemma_key_step(rest, a.trailing_slash);
        }
    }
}

proof fn lemma_rest_grammatical(a: Shape)
    requires
        pattern::grammatical(a),
        a.segments.len() > 0,
    ensures
        pattern::grammatical(
            (Shape { segments: a.segments.skip(1), trailing_slash: a.trailing_slash }),
        ),
{
    let rest = Shape { segments: a.segments.skip(1), trailing_slash: a.trailing_slash };
    assert forall|i: int| 0 <= i < rest.segments.len() implies match #[trigger] rest.segments[i] {
        Seg::Literal(text) => text.len() > 0 && !text.contains('/'),
        Seg::Wildcard => true,
        Seg::CatchAll => i == rest.segments.len() - 1 && !rest.trailing_slash,
    } by {
        assert(rest.segments[i] == a.segments[i + 1]);
    }
}

/// Two patterns meet exactly where there is an example path, and it is one that both of
/// them cover.
pub proof fn examples_are_common_paths(a: Shape, b: Shape, capture: Seq<char>)
    requires
        proper(a),
        proper(b),
        plain(capture),
    ensures
        match diagnostics::overlap(a, b, capture) {
            Some(path) => routing::covers(routing::key_of(a), vstd::utf8::encode_utf8(path))
                && routing::covers(routing::key_of(b), vstd::utf8::encode_utf8(path)),
            None => forall|path: Seq<u8>|
                !(#[trigger] routing::covers(routing::key_of(a), path) && routing::covers(
                    routing::key_of(b),
                    path,
                )),
        },
{
    if diagnostics::overlap(a, b, capture) is Some {
        lemma_covers_overlap(a, b, capture);
        lemma_overlap_symmetric(a, b, capture);
        lemma_covers_overlap(b, a, capture);
    } else {
        assert forall|path: Seq<u8>|
            !(#[trigger] routing::covers(routing::key_of(a), path) && routing::covers(
                routing::key_of(b),
                path,
            )) by {
            if routing::covers(routing::key_of(a), path) && routing::covers(
                routing::key_of(b),
                path,
            ) {
                if path.len() == 1 {
                    lemma_root_segments(a);
                    lemma_root_segments(b);
                } else {
                    lemma_common_path(a, b, path.skip(1));
                }
            }
        }
    }
}

/// The root terminal has no segments.
proof fn lemma_root_segments(a: Shape)
    requires
        pattern::grammatical(a),
        routing::key_of(a) == routing::here(Tail::Leaf),
    ensures
        a.segments.len() == 0,
        !a.trailing_slash,
{
    if a.segments.len() > 0 && !(a.segments[0] is CatchAll) {
        exclusive_laws::lemma_key_step(a.segments, a.trailing_slash);
    }
}

/// What stands for an unconstrained segment can be a segment, and is no pattern's literal.
pub proof fn captures_are_plain(entries: Seq<PathEntry>, capture: Seq<char>)
    requires
        diagnostics::is_capture(entries, capture),
    ensures
        plain(capture),
        !diagnostics::taken(entries, capture),
        forall|e: int, i: int|
            0 <= e < entries.len() && 0 <= i < entries[e].pattern@.segments.len() ==> (
            #[trigger] entries[e].pattern@.segments[i]) != Seg::Literal(capture),
{
    let n = choose|n: nat|
        capture == #[trigger] diagnostics::underscored("_route_guard_probe"@, n)
            && !diagnostics::taken(entries, capture) && forall|m: nat|
            m < n ==> diagnostics::taken(
                entries,
                #[trigger] diagnostics::underscored("_route_guard_probe"@, m),
            );
    reveal_strlit("_route_guard_probe");
    lemma_underscored_plain("_route_guard_probe"@, n);
}

proof fn lemma_underscored_plain(text: Seq<char>, n: nat)
    requires
        plain(text),
    ensures
        plain(diagnostics::underscored(text, n)),
    decreases n,
{
    if n > 0 {
        lemma_underscored_plain(text, (n - 1) as nat);
        let before = diagnostics::underscored(text, (n - 1) as nat);
        let after = diagnostics::underscored(text, n);
        if after.contains('/') {
            let i = after.index_of('/');
            assert(before[i] == '/');
        }
    }
}

/// What stands for an unconstrained segment where no pattern has it as a literal.
pub open spec fn stem() -> Seq<char> {
    seq![
        '_', 'r', 'o', 'u', 't', 'e', '_', 'g', 'u', 'a', 'r', 'd', '_', 'p', 'r', 'o', 'b', 'e'
    ]
}

/// The stem with `n` underscores behind it.
pub open spec fn candidate(n: nat) -> Seq<char> {
    stem() + Seq::new(n, |i: int| '_')
}

/// Whether a pattern has the text as a literal.
pub open spec fn spoken_for(entries: Seq<PathEntry>, text: Seq<char>) -> bool {
    exists|e: int, i: int|
        0 <= e < entries.len() && 0 <= i < entries[e].pattern@.segments.len() && (
        #[trigger] entries[e].pattern@.segments[i]) == Seg::Literal(text)
}

proof fn lemma_candidate(n: nat)
    ensures
        diagnostics::underscored("_route_guard_probe"@, n) == candidate(n),
    decreases n,
{
    reveal_strlit("_route_guard_probe");
    assert("_route_guard_probe"@ =~= stem());
    if n > 0 {
        lemma_candidate((n - 1) as nat);
        assert(candidate((n - 1) as nat).push('_') =~= candidate(n));
    } else {
        assert(candidate(0) =~= stem());
    }
}

/// What stands for an unconstrained segment is the stem, with just as many underscores behind
/// it as it takes to be no pattern's literal.
pub proof fn captures_are_the_first_that_is_free(
    entries: Seq<PathEntry>,
    capture: Seq<char>,
) -> (n: nat)
    requires
        diagnostics::is_capture(entries, capture),
    ensures
        capture == candidate(n),
        forall|m: nat| m < n ==> spoken_for(entries, #[trigger] candidate(m)),
{
    let n = choose|n: nat|
        capture == #[trigger] diagnostics::underscored("_route_guard_probe"@, n)
            && !diagnostics::taken(entries, capture) && forall|m: nat|
            m < n ==> diagnostics::taken(
                entries,
                #[trigger] diagnostics::underscored("_route_guard_probe"@, m),
            );
    lemma_candidate(n);
    assert forall|m: nat| m < n implies spoken_for(entries, #[trigger] candidate(m)) by {
        lemma_candidate(m);
        let text = diagnostics::underscored("_route_guard_probe"@, m);
        assert(diagnostics::taken(entries, text));
        let e = choose|e: int|
            0 <= e < entries.len() && diagnostics::has_literal((#[trigger] entries[e]).pattern@, text);
        let i = choose|i: int|
            0 <= i < entries[e].pattern@.segments.len()
                && #[trigger] entries[e].pattern@.segments[i] == Seg::Literal(text);
        assert(entries[e].pattern@.segments[i] == Seg::Literal(candidate(m)));
    }
    n
}

/// The segment that an example has where the patterns have these.
pub open spec fn filled(a: Option<Seg>, b: Option<Seg>, capture: Seq<char>) -> Seq<char> {
    match (a, b) {
        (Some(Seg::Literal(text)), _) => text,
        (_, Some(Seg::Literal(text))) => text,
        _ => capture,
    }
}

/// The segment of a pattern at a place.
pub open spec fn seg_at(a: Shape, i: int) -> Option<Seg> {
    if i < a.segments.len() {
        Some(a.segments[i])
    } else {
        None
    }
}

/// An example has the segments that a pattern fixes, and the capture everywhere else. It is as
/// long as the longer pattern, and ends in a slash where a pattern without a rest does.
pub proof fn examples_fill_in_the_capture(a: Shape, b: Shape, capture: Seq<char>)
    requires
        diagnostics::overlap(a, b, capture) is Some,
    ensures
        ({
            let n = if a.segments.len() < b.segments.len() {
                b.segments.len()
            } else {
                a.segments.len()
            };
            let segs = Seq::new(n, |i: int| filled(seg_at(a, i), seg_at(b, i), capture));
            let slash = n == 0 || (a.trailing_slash && !(a.segments.len() > 0
                && a.segments.last() is CatchAll)) || (b.trailing_slash && !(b.segments.len() > 0
                && b.segments.last() is CatchAll));
            diagnostics::overlap(a, b, capture) == Some(pattern_laws::pattern_text(segs, slash))
        }),
{
    let n = if a.segments.len() < b.segments.len() {
        b.segments.len()
    } else {
        a.segments.len()
    };
    let segs = Seq::new(n, |i: int| filled(seg_at(a, i), seg_at(b, i), capture));
    assert(n == diagnostics::longer_len(a, b));
    lemma_filled(a, b, capture, segs, n);
    assert(segs.take(n as int) =~= segs);
    let body = pattern_laws::slashed(segs);
    assert(body.push('/') =~= body + seq!['/']);
}

proof fn lemma_filled(a: Shape, b: Shape, capture: Seq<char>, segs: Seq<Seq<char>>, n: nat)
    requires
        n <= segs.len(),
        forall|i: int|
            0 <= i < segs.len() ==> #[trigger] segs[i] == filled(seg_at(a, i), seg_at(b, i), capture),
    ensures
        diagnostics::common_body(a, b, capture, n) == pattern_laws::slashed(segs.take(n as int)),
    decreases n,
{
    let some = segs.take(n as int);
    if n > 0 {
        lemma_filled(a, b, capture, segs, (n - 1) as nat);
        assert(some.drop_last() =~= segs.take(n - 1));
        assert(some.last() == segs[n - 1]);
        assert(diagnostics::common_segment(a, b, capture, n - 1) == segs[n - 1]);
    } else {
        assert(some =~= Seq::<Seq<char>>::empty());
    }
}

} // verus!
