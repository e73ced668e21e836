//! Laws of exclusive subtrees.

use vstd::prelude::*;

use crate::coverage;
use crate::pattern;
use crate::pattern::{Seg, Shape};
use crate::route_tree::Router;
use crate::routing;
use crate::routing::{Key, Step, Tail};
use crate::slot::PathEntry;
use crate::table;

verus! {

/// The terminal of an exclusive tail behind `prefix`.
pub open spec fn tail_key(prefix: Seq<Seg>) -> Key {
    routing::key_from(prefix.push(Seg::CatchAll), false)
}

proof fn lemma_tail_key(prefix: Seq<Seg>)
    requires
        forall|i: int| 0 <= i < prefix.len() ==> !((#[trigger] prefix[i]) is CatchAll),
    ensures
        prefix.len() == 0 ==> tail_key(prefix) == routing::here(Tail::CatchAll),
        prefix.len() > 0 ==> {
            &&& tail_key(prefix).steps.len() > 0
            &&& tail_key(prefix).steps[0] == step_of(prefix[0])
            &&& routing::below(tail_key(prefix)) == tail_key(prefix.skip(1))
        },
        tail_key(prefix).tail == Tail::CatchAll,
    decreases prefix.len(),
{
    let whole = prefix.push(Seg::CatchAll);
    if prefix.len() > 0 {
        assert(whole.skip(1) =~= prefix.skip(1).push(Seg::CatchAll));
        assert(whole[0] == prefix[0]);
        assert forall|i: int| 0 <= i < prefix.skip(1).len() implies !((#[trigger] prefix.skip(
            1,
        )[i]) is CatchAll) by {
            assert(prefix.skip(1)[i] == prefix[i + 1]);
        }
        lemma_tail_key(prefix.skip(1));
        assert(routing::below(tail_key(prefix)).steps =~= tail_key(prefix.skip(1)).steps);
    }
}

/// The step that a literal or wildcard segment makes.
pub open spec fn step_of(seg: Seg) -> Step {
    match seg {
        Seg::Literal(text) => Step::Literal(vstd::utf8::encode_utf8(text)),
        _ => Step::Wildcard,
    }
}

pub proof fn lemma_key_step(segments: Seq<Seg>, slash: bool)
    requires
        segments.len() > 0,
        !(segments[0] is CatchAll),
    ensures
        ({
            let key = routing::key_from(segments, slash);
            &&& key.steps.len() > 0
            &&& key.steps[0] == step_of(segments[0])
            &&& routing::below(key) == routing::key_from(segments.skip(1), slash)
        }),
{
    let key = routing::key_from(segments, slash);
    assert(routing::below(key).steps =~= routing::key_from(segments.skip(1), slash).steps);
}

pub proof fn lemma_same_text(a: Seq<char>, b: Seq<char>)
    requires
        vstd::utf8::encode_utf8(a) == vstd::utf8::encode_utf8(b),
    ensures
        a == b,
{
    vstd::utf8::encode_utf8_decode_utf8(a);
    vstd::utf8::encode_utf8_decode_utf8(b);
}

/// A pattern that covers a path of the tail, and comes before it, overrides it.
proof fn lemma_overrides(prefix: Seq<Seg>, segments: Seq<Seg>, slash: bool, s: Seq<u8>, higher: bool)
    requires
        forall|i: int| 0 <= i < prefix.len() ==> !((#[trigger] prefix[i]) is CatchAll),
        routing::key_matches(tail_key(prefix), s),
        routing::key_matches(routing::key_from(segments, slash), s),
        higher || routing::outranks(routing::key_from(segments, slash), tail_key(prefix)),
        s.len() > 0,
    ensures
        table::overrides(prefix, segments, higher),
    decreases prefix.len(),
{
    let key = routing::key_from(segments, slash);
    lemma_tail_key(prefix);
    if segments.len() > 0 && !(segments[0] is CatchAll) {
        lemma_key_step(segments, slash);
    }
    if prefix.len() > 0 {
        let rest = prefix.skip(1);
        assert forall|i: int| 0 <= i < rest.len() implies !((#[trigger] rest[i]) is CatchAll) by {
            assert(rest[i] == prefix[i + 1]);
        }
        lemma_tail_key(rest);
        if segments.len() > 0 && !(segments[0] is CatchAll) {
            let next = routing::rest(s);
            if let (Seg::Literal(a), Seg::Literal(b)) = (prefix[0], segments[0]) {
                lemma_same_text(a, b);
            }
            let more = higher || (prefix[0] is Wildcard && segments[0] is Literal);
            lemma_overrides(rest, segments.skip(1), slash, next, more);
        }
    }
}

/// Some body that a pattern covers.
spec fn sample(segments: Seq<Seg>, slash: bool) -> Seq<u8>
    decreases segments.len(),
{
    if segments.len() == 0 {
        Seq::empty()
    } else {
        let segment = match segments[0] {
            Seg::Literal(text) => vstd::utf8::encode_utf8(text),
            _ => seq![0x78u8],
        };
        if segments[0] is CatchAll {
            segment
        } else if segments.len() == 1 {
            if slash {
                segment + seq![0x2Fu8]
            } else {
                segment
            }
        } else {
            segment + seq![0x2Fu8] + sample(segments.skip(1), slash)
        }
    }
}

/// Segments as the grammar has them.
spec fn tidy_segments(segments: Seq<Seg>, slash: bool) -> bool {
    pattern::grammatical(Shape { segments, trailing_slash: slash })
}

proof fn lemma_tidy_rest(segments: Seq<Seg>, slash: bool)
    requires
        segments.len() > 0,
        tidy_segments(segments, slash),
    ensures
        tidy_segments(segments.skip(1), slash),
        segments[0] is CatchAll ==> segments.len() == 1 && !slash,
        segments[0] matches Seg::Literal(text) ==> coverage::plain_segment(
            vstd::utf8::encode_utf8(text),
        ),
{
    let rest = segments.skip(1);
    let whole = Shape { segments, trailing_slash: slash };
    assert(whole.segments[0] == segments[0]);
    assert forall|i: int| 0 <= i < rest.len() implies match #[trigger] rest[i] {
        Seg::Literal(text) => text.len() > 0 && !text.contains('/'),
        Seg::Wildcard => true,
        Seg::CatchAll => i == rest.len() - 1 && !slash,
    } by {
        assert(rest[i] == whole.segments[i + 1]);
    }
    if let Seg::Literal(text) = segments[0] {
        lemma_plain_text(text);
    }
}

/// A text without a slash encodes to bytes without a slash.
pub proof fn lemma_plain_text(text: Seq<char>)
    requires
        !text.contains('/'),
    ensures
        !vstd::utf8::encode_utf8(text).contains(0x2F),
        text.len() > 0 ==> vstd::utf8::encode_utf8(text).len() > 0,
    decreases text.len(),
{
    if text.len() > 0 {
        let rest = text.drop_first();
        if rest.contains('/') {
            let i = rest.index_of('/');
            assert(text[i + 1] == '/');
        }
        lemma_plain_text(rest);
        assert(text[0] != '/');
        let first = vstd::utf8::encode_scalar(text[0] as u32);
        lemma_plain_scalar(text[0]);
        assert(vstd::utf8::encode_utf8(text) =~= first + vstd::utf8::encode_utf8(rest));
        if vstd::utf8::encode_utf8(text).contains(0x2F) {
            let i = vstd::utf8::encode_utf8(text).index_of(0x2F);
            if i < first.len() {
                assert(first[i] == 0x2F);
            } else {
                assert(vstd::utf8::encode_utf8(rest)[i - first.len()] == 0x2F);
            }
        }
    }
}

proof fn lemma_plain_scalar(c: char)
    requires
        c != '/',
    ensures
        !vstd::utf8::encode_scalar(c as u32).contains(0x2F),
        vstd::utf8::encode_scalar(c as u32).len() > 0,
{
    let v = c as u32;
    vstd::utf8::char_is_scalar(c);
    assert(v != 0x2F);
    assert(v <= 0x7F ==> (v & 0x7F) as u8 == v) by (bit_vector);
    assert((0xC0u8 | ((v >> 6) & 0x1F) as u8) >= 0x80u8) by (bit_vector);
    assert((0xE0u8 | ((v >> 12) & 0x0F) as u8) >= 0x80u8) by (bit_vector);
    assert((0xF0u8 | ((v >> 18) & 0x7) as u8) >= 0x80u8) by (bit_vector);
    assert((0x80u8 | (v & 0x3F) as u8) >= 0x80u8) by (bit_vector);
    assert((0x80u8 | ((v >> 6) & 0x3F) as u8) >= 0x80u8) by (bit_vector);
    assert((0x80u8 | ((v >> 12) & 0x3F) as u8) >= 0x80u8) by (bit_vector);
}

proof fn lemma_sample_head(segment: Seq<u8>, t: Seq<u8>)
    requires
        coverage::plain_segment(segment),
    ensures
        routing::head(segment) == segment,
        !routing::goes_on(segment),
        routing::head(segment + seq![0x2Fu8] + t) == segment,
        routing::goes_on(segment + seq![0x2Fu8] + t),
        routing::rest(segment + seq![0x2Fu8] + t) == t,
{
    coverage::lemma_split_head(segment, t);
    routing::lemma_next_slash(segment, 0);
    if routing::next_slash(segment, 0) < segment.len() {
        assert(segment.contains(segment[routing::next_slash(segment, 0)]));
    }
    assert(routing::head(segment) =~= segment);
}

/// A pattern covers its sample.
proof fn lemma_sample(segments: Seq<Seg>, slash: bool)
    requires
        segments.len() > 0,
        tidy_segments(segments, slash),
    ensures
        routing::key_matches(routing::key_from(segments, slash), sample(segments, slash)),
        sample(segments, slash).len() > 0,
    decreases segments.len(),
{
    lemma_tidy_rest(segments, slash);
    let rest = segments.skip(1);
    let segment = match segments[0] {
        Seg::Literal(text) => vstd::utf8::encode_utf8(text),
        _ => seq![0x78u8],
    };
    assert(coverage::plain_segment(segment));
    if !(segments[0] is CatchAll) {
        lemma_key_step(segments, slash);
        if segments.len() == 1 {
            assert(rest =~= Seq::empty());
            lemma_sample_head(segment, Seq::empty());
            assert(segment + seq![0x2Fu8] + Seq::empty() =~= segment + seq![0x2Fu8]);
            let key = routing::key_from(segments, slash);
            assert(routing::below(key) == routing::here(
                if slash {
                    Tail::LeafSlash
                } else {
                    Tail::Leaf
                },
            ));
            assert(routing::below(key).steps.len() == 0);
            assert(key.steps.len() == 1);
        } else {
            lemma_sample(rest, slash);
            lemma_sample_head(segment, sample(rest, slash));
        }
    }
}

/// Where a pattern overrides an exclusive tail, there is a path that shows it.
proof fn lemma_overridden_path(prefix: Seq<Seg>, segments: Seq<Seg>, slash: bool, higher: bool) -> (s:
    Seq<u8>)
    requires
        tidy_segments(prefix.push(Seg::CatchAll), false),
        tidy_segments(segments, slash),
        table::overrides(prefix, segments, higher),
    ensures
        s.len() > 0,
        routing::key_matches(tail_key(prefix), s),
        routing::key_matches(routing::key_from(segments, slash), s),
        higher || routing::outranks(routing::key_from(segments, slash), tail_key(prefix)),
    decreases prefix.len(),
{
    let whole = prefix.push(Seg::CatchAll);
    lemma_tidy_rest(whole, false);
    lemma_tidy_rest(segments, slash);
    assert forall|i: int| 0 <= i < prefix.len() implies !((#[trigger] prefix[i]) is CatchAll) by {
        let shape = Shape { segments: whole, trailing_slash: false };
        assert(shape.segments[i] == prefix[i]);
    }
    lemma_tail_key(prefix);
    if !(segments[0] is CatchAll) {
        lemma_key_step(segments, slash);
    }
    if prefix.len() == 0 {
        lemma_sample(segments, slash);
        sample(segments, slash)
    } else if segments[0] is CatchAll {
        lemma_sample(whole, false);
        sample(whole, false)
    } else {
        let rest = prefix.skip(1);
        assert(whole.skip(1) =~= rest.push(Seg::CatchAll));
        let more = higher || (prefix[0] is Wildcard && segments[0] is Literal);
        let t = lemma_overridden_path(rest, segments.skip(1), slash, more);
        let segment = match (prefix[0], segments[0]) {
            (Seg::Literal(text), _) => vstd::utf8::encode_utf8(text),
            (_, Seg::Literal(text)) => vstd::utf8::encode_utf8(text),
            _ => seq![0x78u8],
        };
        assert(whole[0] == prefix[0]);
        assert(coverage::plain_segment(segment));
        lemma_sample_head(segment, t);
        segment + seq![0x2Fu8] + t
    }
}

/// The build-time test for exclusive subtrees is exact: a pattern is refused beside an
/// exclusive tail if and only if some path lies in the tail and goes to the pattern first.
pub proof fn exclusivity_test_is_exact(prefix: Seq<Seg>, other: Shape)
    requires
        pattern::grammatical(Shape { segments: prefix.push(Seg::CatchAll), trailing_slash: false }),
        pattern::grammatical(other),
    ensures
        table::overrides(prefix, other.segments, false) <==> exists|path: Seq<u8>| #[trigger]
            routing::covers(tail_key(prefix), path) && routing::covers(
                routing::key_of(other),
                path,
            ) && routing::outranks(routing::key_of(other), tail_key(prefix)),
{
    let key = routing::key_of(other);
    let tail = tail_key(prefix);
    let whole = Shape { segments: prefix.push(Seg::CatchAll), trailing_slash: false };
    assert forall|i: int| 0 <= i < prefix.len() implies !((#[trigger] prefix[i]) is CatchAll) by {
        assert(whole.segments[i] == prefix[i]);
    }
    lemma_tail_key(prefix);
    if table::overrides(prefix, other.segments, false) {
        let s = lemma_overridden_path(prefix, other.segments, other.trailing_slash, false);
        let path = seq![0x2Fu8] + s;
        assert(path.skip(1) =~= s);
        assert(routing::covers(tail, path) && routing::covers(key, path));
    }
    if exists|path: Seq<u8>| #[trigger]
        routing::covers(tail, path) && routing::covers(key, path) && routing::outranks(key, tail) {
        let path = choose|path: Seq<u8>| #[trigger]
            routing::covers(tail, path) && routing::covers(key, path) && routing::outranks(
                key,
                tail,
            );
        assert(path.len() > 1);
        lemma_overrides(prefix, other.segments, other.trailing_slash, path.skip(1), false);
    }
}

/// Two terminals that cover one path are the same or one comes before the other.
pub proof fn lemma_rank_is_total(a: Key, b: Key, s: Seq<u8>)
    requires
        routing::key_matches(a, s),
        routing::key_matches(b, s),
    ensures
        a == b || routing::outranks(a, b) || routing::outranks(b, a),
    decreases a.steps.len(),
{
    if a.steps.len() == 0 && b.steps.len() == 0 {
        assert(a.steps =~= b.steps);
    } else if a.steps.len() > 0 && b.steps.len() > 0 {
        if !routing::goes_on(s) || routing::rest(s).len() == 0 {
            assert(a.steps.len() == 1 && b.steps.len() == 1);
            if a.steps[0] == b.steps[0] {
                assert(a.steps =~= b.steps);
            }
        } else {
            lemma_rank_is_total(routing::below(a), routing::below(b), routing::rest(s));
            if a.steps[0] == b.steps[0] && routing::below(a) == routing::below(b) {
                assert(a.steps =~= seq![a.steps[0]] + routing::below(a).steps);
                assert(b.steps =~= seq![b.steps[0]] + routing::below(b).steps);
            }
        }
    }
}

/// In a router that was built, a path in an exclusive tail is decided by the tail's own
/// rules whenever these decide: no other pattern takes over beneath it.
pub proof fn exclusive_tails_are_kept(
    entries: Seq<PathEntry>,
    router: Router,
    i: int,
    path: Seq<u8>,
    method: http::Method,
)
    requires
        table::builds(entries, Ok(router)),
        0 <= i < entries.len(),
        entries[i].opaque,
        table::tail_prefix(entries[i].pattern@.segments) is Some,
        forall|j: int| 0 <= j < entries.len() ==> pattern::grammatical(#[trigger] entries[j].pattern@),
        routing::covers(routing::key_of(entries[i].pattern@), path),
        routing::decide(
            router.slots()(routing::key_of(entries[i].pattern@)),
            method,
        ) is Some,
    ensures
        routing::decide(
            router.slots()(routing::key_of(entries[i].pattern@)),
            method,
        ) == Some(routing::identity(router.slots(), path, method)),
{
    let slots = router.slots();
    let shape = entries[i].pattern@;
    let prefix = table::tail_prefix(shape.segments)->Some_0;
    let tail = routing::key_of(shape);
    assert(prefix.push(Seg::CatchAll) =~= shape.segments);
    assert(shape.segments[shape.segments.len() - 1] is CatchAll);
    assert(pattern::grammatical(entries[i].pattern@));
    assert(!shape.trailing_slash);
    assert(tail == tail_key(prefix));
    assert(routing::contends(slots, tail, path, method));
    assert forall|k: int| 0 <= k < prefix.len() implies !((#[trigger] prefix[k]) is CatchAll) by {
        assert(shape.segments[k] == prefix[k]);
    }
    lemma_tail_key(prefix);
    assert(path.len() > 1);
    assert forall|other: Key| #[trigger] routing::contends(slots, other, path, method) implies other
        == tail || routing::outranks(tail, other) by {
        lemma_rank_is_total(tail, other, path.skip(1));
        if routing::outranks(other, tail) {
            let j = lemma_claimed_by_entry(entries, entries.len(), other);
            assert(pattern::grammatical(entries[j].pattern@));
            exclusivity_test_is_exact(prefix, entries[j].pattern@);
            assert(routing::covers(tail_key(prefix), path));
            assert(table::overrides(prefix, entries[j].pattern@.segments, false));
            assert(table::intruded(entries, i));
        }
    }
    assert(routing::selects(slots, tail, path, method));
    routing::lemma_identity(slots, tail, path, method);
}

/// A terminal that is claimed is the terminal of some entry.
pub proof fn lemma_claimed_by_entry(entries: Seq<PathEntry>, n: nat, key: Key) -> (j: int)
    requires
        n <= entries.len(),
        table::table_after(entries, n, key) != routing::unclaimed(),
    ensures
        0 <= j < n,
        routing::key_of(entries[j].pattern@) == key,
    decreases n,
{
    if key == routing::key_of(entries[n - 1].pattern@) {
        n - 1
    } else {
        lemma_claimed_by_entry(entries, (n - 1) as nat, key)
    }
}

} // verus!
