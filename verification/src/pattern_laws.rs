//! What a pattern means, said of its characters and of the bytes of a path.

use vstd::prelude::*;

use crate::exclusive_laws;
use crate::overlap_laws;
use crate::pattern;
use crate::pattern::{LowerError, Seg, Shape};
use crate::routing;
use crate::routing::{Step, Tail};
use crate::subtree_laws;

verus! {

/// What a segment of a pattern is to say.
pub ghost enum Piece {
    /// This text.
    Text(Seq<char>),
    /// Any one segment, under this name.
    Param(Seq<char>),
    /// Everything that follows, under this name.
    Rest(Seq<char>),
}

/// A text with each brace written twice.
pub open spec fn doubled(text: Seq<char>) -> Seq<char>
    decreases text.len(),
{
    if text.len() == 0 {
        Seq::empty()
    } else if text.last() == '{' || text.last() == '}' {
        doubled(text.drop_last()).push(text.last()).push(text.last())
    } else {
        doubled(text.drop_last()).push(text.last())
    }
}

/// How it is written.
pub open spec fn written(piece: Piece) -> Seq<char> {
    match piece {
        Piece::Text(text) => doubled(text),
        Piece::Param(name) => seq!['{'] + name + seq!['}'],
        Piece::Rest(name) => seq!['{', '*'] + name + seq!['}'],
    }
}

/// Whether it can be written: a text or name is not empty and holds no slash, and a name holds
/// no star and no brace.
pub open spec fn writable(piece: Piece) -> bool {
    match piece {
        Piece::Text(text) => text.len() > 0 && !text.contains('/'),
        Piece::Param(name) => nameable(name),
        Piece::Rest(name) => nameable(name),
    }
}

pub open spec fn nameable(name: Seq<char>) -> bool {
    &&& name.len() > 0
    &&& !name.contains('/') && !name.contains('*') && !name.contains('{') && !name.contains('}')
}

/// The segments, each behind a slash.
pub open spec fn slashed(segs: Seq<Seq<char>>) -> Seq<char>
    decreases segs.len(),
{
    if segs.len() == 0 {
        Seq::empty()
    } else {
        slashed(segs.drop_last()) + seq!['/'] + segs.last()
    }
}

/// The segments as a pattern, with a slash at the end or without.
pub open spec fn pattern_text(segs: Seq<Seq<char>>, slash: bool) -> Seq<char> {
    if slash {
        slashed(segs) + seq!['/']
    } else {
        slashed(segs)
    }
}

/// A doubled text has no opening in it, and reads as the text.
proof fn lemma_doubled(text: Seq<char>, tail: Seq<char>)
    requires
        tail.len() > 0 && (tail[0] == '{' || tail[0] == '}') ==> tail.len() == 1 || tail[1] != tail[0],
    ensures
        pattern::opening(doubled(text) + tail, 0) == match pattern::opening(tail, 0) {
            pattern::Opening::At(i) => pattern::Opening::At(i + doubled(text).len()),
            other => other,
        },
        pattern::unescaped(doubled(text) + tail) == text + pattern::unescaped(tail),
        text.len() > 0 ==> doubled(text).len() > 0,
        doubled(text).contains('/') <==> text.contains('/'),
    decreases text.len(),
{
    lemma_doubled_from(text, tail);
    lemma_doubled_slash(text);
}

proof fn lemma_doubled_slash(text: Seq<char>)
    ensures
        text.len() > 0 ==> doubled(text).len() > 0,
        doubled(text).contains('/') <==> text.contains('/'),
    decreases text.len(),
{
    if text.len() > 0 {
        let less = text.drop_last();
        lemma_doubled_slash(less);
        let d = doubled(text);
        let e = doubled(less);
        if text.contains('/') {
            let i = text.index_of('/');
            if i < less.len() {
                assert(less[i] == '/');
                let j = e.index_of('/');
                assert(d[j] == '/');
            } else {
                assert(d.last() == '/');
            }
        }
        if d.contains('/') {
            let j = d.index_of('/');
            if j < e.len() {
                assert(e[j] == '/');
                let i = less.index_of('/');
                assert(text[i] == '/');
            } else {
                assert(text.last() == '/');
            }
        }
    }
}

/// Reading a text from its first character on.
proof fn lemma_doubled_first(text: Seq<char>)
    requires
        text.len() > 0,
    ensures
        doubled(text) == if text[0] == '{' || text[0] == '}' {
            seq![text[0], text[0]] + doubled(text.skip(1))
        } else {
            seq![text[0]] + doubled(text.skip(1))
        },
    decreases text.len(),
{
    let rest = text.skip(1);
    if text.len() == 1 {
        assert(text.drop_last() =~= Seq::<char>::empty());
        assert(rest =~= Seq::<char>::empty());
        assert(doubled(rest) =~= Seq::<char>::empty());
        reveal_with_fuel(doubled, 2);
        assert(doubled(text) =~= if text[0] == '{' || text[0] == '}' {
            seq![text[0], text[0]] + doubled(rest)
        } else {
            seq![text[0]] + doubled(rest)
        });
    } else {
        let less = text.drop_last();
        lemma_doubled_first(less);
        assert(less.skip(1) =~= rest.drop_last());
        assert(rest.last() == text.last() && less[0] == text[0]);
        assert(doubled(text) =~= if text[0] == '{' || text[0] == '}' {
            seq![text[0], text[0]] + doubled(rest)
        } else {
            seq![text[0]] + doubled(rest)
        });
    }
}

proof fn lemma_opening_shift(seg: Seq<char>, n: int, i: int)
    requires
        0 <= n <= seg.len(),
        0 <= i,
    ensures
        pattern::opening(seg, n + i) == match pattern::opening(seg.skip(n), i) {
            pattern::Opening::At(k) => pattern::Opening::At(k + n),
            other => other,
        },
    decreases seg.len() - n - i,
{
    let rest = seg.skip(n);
    if i < rest.len() {
        assert(rest[i] == seg[n + i]);
        lemma_opening_shift(seg, n, i + 1);
        if i + 1 < rest.len() {
            assert(rest[i + 1] == seg[n + i + 1]);
            lemma_opening_shift(seg, n, i + 2);
        }
    }
}

proof fn lemma_doubled_from(text: Seq<char>, tail: Seq<char>)
    requires
        tail.len() > 0 && (tail[0] == '{' || tail[0] == '}') ==> tail.len() == 1 || tail[1] != tail[0],
    ensures
        pattern::opening(doubled(text) + tail, 0) == match pattern::opening(tail, 0) {
            pattern::Opening::At(i) => pattern::Opening::At(i + doubled(text).len()),
            other => other,
        },
        pattern::unescaped(doubled(text) + tail) == text + pattern::unescaped(tail),
    decreases text.len(),
{
    let all = doubled(text) + tail;
    if text.len() == 0 {
        assert(all =~= tail);
        assert(text + pattern::unescaped(tail) =~= pattern::unescaped(tail));
    } else {
        let rest = text.skip(1);
        lemma_doubled_first(text);
        lemma_doubled_from(rest, tail);
        let more = doubled(rest) + tail;
        let n: int = if text[0] == '{' || text[0] == '}' {
            2
        } else {
            1
        };
        assert(all.skip(n) =~= more);
        assert(all[0] == text[0]);
        if n == 2 {
            assert(all[1] == text[0]);
        }
        lemma_opening_shift(all, n, 0);
        assert(seq![text[0]] + (rest + pattern::unescaped(tail)) =~= text + pattern::unescaped(tail));
    }
}

/// A static segment reads as its text, doubled braces as one.
pub proof fn static_segments_are_literal(text: Seq<char>)
    ensures
        pattern::brace_segment(doubled(text)) == Ok::<Seg, LowerError>(Seg::Literal(text)),
{
    let none = Seq::<char>::empty();
    lemma_doubled(text, none);
    assert(doubled(text) + none =~= doubled(text));
    assert(pattern::unescaped(none) =~= none);
    assert(text + none =~= text);
}

/// A name in braces is a parameter, one behind a star a catch-all. The name must not be empty
/// nor hold a star.
pub proof fn braces_make_parameters(name: Seq<char>)
    requires
        !name.contains('}'),
        name.len() > 0 ==> name[0] != '{',
    ensures
        pattern::brace_segment(seq!['{'] + name + seq!['}']) == if name.len() == 0 {
            Err::<Seg, LowerError>(LowerError::InvalidParam)
        } else if name[0] == '*' {
            if name.len() == 1 || name.skip(1).contains('*') {
                Err::<Seg, LowerError>(LowerError::InvalidParam)
            } else {
                Ok::<Seg, LowerError>(Seg::CatchAll)
            }
        } else if name.contains('*') {
            Err::<Seg, LowerError>(LowerError::InvalidParam)
        } else {
            Ok::<Seg, LowerError>(Seg::Wildcard)
        },
{
    let seg = seq!['{'] + name + seq!['}'];
    assert(pattern::opening(seg, 0) == pattern::Opening::At(0));
    pattern::lemma_next_char(seg, '}', 1);
    let close = pattern::next_char(seg, '}', 1);
    assert(seg[seg.len() - 1] == '}');
    if close < seg.len() - 1 {
        assert(seg[close] == name[close - 1]);
        assert(name.contains(name[close - 1]));
    }
    assert(seg.subrange(1, close) =~= name);
}

/// A parameter with text around it in its segment is refused as such; one that does not end,
/// or an end without a beginning, as malformed.
pub proof fn stray_braces_are_refused(text: Seq<char>, inner: Seq<char>, more: Seq<char>)
    requires
        !inner.contains('}'),
        inner.len() > 0 ==> inner[0] != '{',
    ensures
        text.len() > 0 || more.len() > 0 ==> pattern::brace_segment(
            doubled(text) + (seq!['{'] + inner + seq!['}'] + more),
        ) == Err::<Seg, LowerError>(LowerError::PrefixSuffixParam),
        pattern::brace_segment(doubled(text) + (seq!['{'] + inner)) == Err::<Seg, LowerError>(
            LowerError::MalformedParam,
        ),
        more.len() == 0 || more[0] != '}' ==> pattern::brace_segment(
            doubled(text) + (seq!['}'] + more),
        ) == Err::<Seg, LowerError>(LowerError::MalformedParam),
{
    let n = doubled(text).len() as int;
    let param = seq!['{'] + inner + seq!['}'] + more;
    lemma_doubled(text, param);
    assert(pattern::opening(param, 0) == pattern::Opening::At(0));
    let seg = doubled(text) + param;
    pattern::lemma_next_char(seg, '}', n + 1);
    let close = pattern::next_char(seg, '}', n + 1);
    let end = n + 1 + inner.len();
    assert(seg[end] == '}');
    if close < end {
        assert(seg[close] == inner[close - n - 1]);
        assert(inner.contains(inner[close - n - 1]));
    }
    assert(close == end) by {
        if close > end {
            assert(seg[end] != '}');
        }
    }
    let open = seq!['{'] + inner;
    lemma_doubled(text, open);
    assert(pattern::opening(open, 0) == pattern::Opening::At(0));
    let seg = doubled(text) + open;
    pattern::lemma_next_char(seg, '}', n + 1);
    let close = pattern::next_char(seg, '}', n + 1);
    if close < seg.len() {
        assert(seg[close] == inner[close - n - 1]);
        assert(inner.contains(inner[close - n - 1]));
    }
    if more.len() == 0 || more[0] != '}' {
        let stray = seq!['}'] + more;
        lemma_doubled(text, stray);
        assert(pattern::opening(stray, 0) == pattern::Opening::Stray);
    }
}

/// What the pieces say.
pub open spec fn meaning(piece: Piece) -> Seg {
    match piece {
        Piece::Text(text) => Seg::Literal(text),
        Piece::Param(_) => Seg::Wildcard,
        Piece::Rest(_) => Seg::CatchAll,
    }
}

proof fn lemma_written(piece: Piece)
    requires
        writable(piece),
    ensures
        pattern::brace_segment(written(piece)) == Ok::<Seg, LowerError>(meaning(piece)),
        written(piece).len() > 0,
        !written(piece).contains('/'),
{
    match piece {
        Piece::Text(text) => {
            static_segments_are_literal(text);
            lemma_doubled_slash(text);
        },
        Piece::Param(name) => {
            assert(name[0] != '{' && name[0] != '*') by {
                assert(name.contains(name[0]));
            }
            braces_make_parameters(name);
            let w = written(piece);
            if w.contains('/') {
                let i = w.index_of('/');
                assert(name[i - 1] == '/');
            }
        },
        Piece::Rest(name) => {
            let starred = seq!['*'] + name;
            assert(written(piece) =~= seq!['{'] + starred + seq!['}']);
            assert(starred.skip(1) =~= name);
            assert(!starred.contains('}')) by {
                if starred.contains('}') {
                    let i = starred.index_of('}');
                    assert(name[i - 1] == '}');
                }
            }
            braces_make_parameters(starred);
            let w = written(piece);
            if w.contains('/') {
                let i = w.index_of('/');
                assert(name[i - 2] == '/');
            }
        },
    }
}

/// The parts of a text made of segments are the segments.
proof fn lemma_slashed_parts(segs: Seq<Seq<char>>)
    requires
        segs.len() > 0,
        forall|i: int| 0 <= i < segs.len() ==> !(#[trigger] segs[i]).contains('/'),
    ensures
        slashed(segs).len() > 0,
        slashed(segs)[0] == '/',
        pattern::split(slashed(segs).skip(1)) == segs,
    decreases segs.len(),
{
    let last = segs.last();
    let less = segs.drop_last();
    pattern::lemma_next_char(last, '/', 0);
    assert(pattern::next_char(last, '/', 0) == last.len()) by {
        let k = pattern::next_char(last, '/', 0);
        if k < last.len() {
            assert(last.contains(last[k]));
        }
    }
    assert(pattern::split(last) =~= seq![last]);
    if less.len() == 0 {
        assert(slashed(less) =~= Seq::<char>::empty());
        assert(slashed(segs).skip(1) =~= last);
        assert(segs =~= seq![last]);
    } else {
        assert forall|i: int| 0 <= i < less.len() implies !(#[trigger] less[i]).contains('/') by {
            assert(less[i] == segs[i]);
        }
        lemma_slashed_parts(less);
        let body = slashed(less).skip(1);
        subtree_laws::lemma_split_join(body, last);
        assert(slashed(segs).skip(1) =~= body + seq!['/'] + last);
        assert(segs =~= less + seq![last]);
    }
}

/// A pattern is read segment by segment.
proof fn lemma_pattern_parts(segs: Seq<Seq<char>>, slash: bool)
    requires
        segs.len() > 0,
        forall|i: int|
            0 <= i < segs.len() ==> !(#[trigger] segs[i]).contains('/') && segs[i].len() > 0,
    ensures
        pattern_text(segs, slash).len() > 1,
        pattern_text(segs, slash)[0] == '/',
        pattern::ends_in_slash(pattern_text(segs, slash)) == slash,
        pattern::pattern_parts(pattern_text(segs, slash)) == segs,
{
    lemma_slashed_parts(segs);
    let text = pattern_text(segs, slash);
    let plain = slashed(segs);
    let last = segs.last();
    assert(plain.last() == last.last());
    assert(last.contains(last.last()));
    assert(pattern::pattern_body(text) =~= plain.skip(1));
    assert(plain.skip(1).len() > 0);
}

/// The texts of pieces.
pub open spec fn texts(pieces: Seq<Piece>) -> Seq<Seq<char>> {
    pieces.map_values(|piece: Piece| written(piece))
}

/// Whether the pieces can be a pattern: each can be written, and only the last one, without a
/// slash behind it, takes the rest.
pub open spec fn well_formed(pieces: Seq<Piece>, slash: bool) -> bool {
    &&& pieces.len() > 0
    &&& forall|i: int| 0 <= i < pieces.len() ==> writable(#[trigger] pieces[i])
    &&& forall|i: int|
        0 <= i < pieces.len() && (#[trigger] pieces[i]) is Rest ==> i == pieces.len() - 1 && !slash
}

proof fn lemma_lowered_pieces(pieces: Seq<Piece>, slash: bool, i: int)
    requires
        well_formed(pieces, slash),
        0 <= i <= pieces.len(),
        pattern::pattern_parts(pattern_text(texts(pieces), slash)) == texts(pieces),
        pattern::ends_in_slash(pattern_text(texts(pieces), slash)) == slash,
    ensures
        pattern::lowered_from(pattern_text(texts(pieces), slash), i) == Ok::<Shape, LowerError>(
            Shape {
                segments: pieces.skip(i).map_values(|piece: Piece| meaning(piece)),
                trailing_slash: slash,
            },
        ),
    decreases pieces.len() - i,
{
    let pat = pattern_text(texts(pieces), slash);
    let tail = pieces.skip(i).map_values(|piece: Piece| meaning(piece));
    if i == pieces.len() {
        assert(tail =~= Seq::<Seg>::empty());
    } else {
        lemma_lowered_pieces(pieces, slash, i + 1);
        lemma_written(pieces[i]);
        assert(texts(pieces)[i] == written(pieces[i]));
        let rest = pieces.skip(i + 1).map_values(|piece: Piece| meaning(piece));
        assert(seq![meaning(pieces[i])] + rest =~= tail);
    }
}

/// A pattern that is written from pieces says what they say.
pub proof fn patterns_say_what_is_written(pieces: Seq<Piece>, slash: bool)
    requires
        well_formed(pieces, slash),
    ensures
        pattern::lowered(pattern_text(texts(pieces), slash)) == Ok::<Shape, LowerError>(
            Shape {
                segments: pieces.map_values(|piece: Piece| meaning(piece)),
                trailing_slash: slash,
            },
        ),
{
    assert forall|i: int| 0 <= i < texts(pieces).len() implies !(#[trigger] texts(pieces)[i]).contains(
        '/',
    ) && texts(pieces)[i].len() > 0 by {
        lemma_written(pieces[i]);
    }
    lemma_pattern_parts(texts(pieces), slash);
    lemma_lowered_pieces(pieces, slash, 0);
    assert(pieces.skip(0) =~= pieces);
}

/// Whether the pieces fit the bytes behind the first slash of a path: a text fits its own
/// UTF-8 form, a parameter any non-empty segment, the rest anything but nothing.
pub open spec fn fits(pieces: Seq<Piece>, slash: bool, s: Seq<u8>) -> bool
    decreases pieces.len(),
{
    if pieces.len() == 0 {
        false
    } else if pieces[0] is Rest {
        s.len() > 0
    } else if pieces.len() == 1 {
        if slash {
            s.len() > 0 && fits_first(pieces[0], s, s.len() - 1)
        } else {
            fits_first(pieces[0], s, s.len() as int)
        }
    } else {
        exists|k: int| #[trigger]
            fits_first(pieces[0], s, k) && k < s.len() && fits(
                pieces.skip(1),
                slash,
                s.skip(k + 1),
            )
    }
}

/// Whether the piece fits the bytes before `k`, which are all up to a slash or to the end.
pub open spec fn fits_first(piece: Piece, s: Seq<u8>, k: int) -> bool {
    &&& 0 <= k <= s.len()
    &&& !s.take(k).contains('/' as u8)
    &&& k < s.len() ==> s[k] == '/' as u8
    &&& match piece {
        Piece::Text(text) => s.take(k) == vstd::utf8::encode_utf8(text),
        _ => k > 0,
    }
}

/// The terminal of pieces covers what they fit.
proof fn lemma_fits(pieces: Seq<Piece>, slash: bool, s: Seq<u8>)
    requires
        well_formed(pieces, slash),
    ensures
        s.len() > 0 ==> (routing::key_matches(
            routing::key_from(pieces.map_values(|piece: Piece| meaning(piece)), slash),
            s,
        ) <==> fits(pieces, slash, s)),
        s.len() == 0 ==> !fits(pieces, slash, s),
    decreases pieces.len(),
{
    let segs = pieces.map_values(|piece: Piece| meaning(piece));
    let key = routing::key_from(segs, slash);
    let rest = pieces.skip(1);
    let m = routing::next_slash(s, 0);
    routing::lemma_next_slash(s, 0);
    assert(writable(pieces[0]));
    assert(segs[0] == meaning(pieces[0]));
    if pieces[0] is Rest {
        assert(key == routing::here(Tail::CatchAll));
    } else {
        assert(segs.skip(1) =~= rest.map_values(|piece: Piece| meaning(piece)));
        if let Piece::Text(text) = pieces[0] {
            exclusive_laws::lemma_plain_text(text);
        }
        let step = key.steps[0];
        let inner = routing::key_from(segs.skip(1), slash);
        assert(routing::below(key).steps =~= inner.steps);
        assert(routing::below(key) == inner);
        assert(!s.take(m).contains(0x2F)) by {
            if s.take(m).contains(0x2F) {
                let j = s.take(m).index_of(0x2F);
                assert(s[j] != 0x2F);
            }
        }
        assert forall|k: int| #[trigger] fits_first(pieces[0], s, k) implies k == m by {
            let t = s.take(k);
            if m < k {
                assert(t[m] == 0x2F);
                assert(t.contains(t[m]));
            }
        }
        assert(fits_first(pieces[0], s, m) <==> routing::step_matches(step, routing::head(s)));
        if rest.len() == 0 {
            assert(inner.steps =~= Seq::<Step>::empty());
            assert(key.steps.len() == 1);
            if routing::goes_on(s) && routing::rest(s).len() > 0 {
                assert(!routing::key_matches(inner, routing::rest(s)));
            }
        } else {
            assert(well_formed(rest, slash)) by {
                assert forall|i: int| 0 <= i < rest.len() implies writable(#[trigger] rest[i]) by {
                    assert(rest[i] == pieces[i + 1]);
                }
                assert forall|i: int| 0 <= i < rest.len() && (#[trigger] rest[i]) is Rest implies i
                    == rest.len() - 1 && !slash by {
                    assert(rest[i] == pieces[i + 1]);
                }
            }
            lemma_fits(rest, slash, s.skip(m + 1));
            assert(segs.skip(1)[0] == meaning(rest[0]));
            assert(key.steps.len() > 1 || key.tail == Tail::CatchAll);
        }
    }
}

/// A pattern covers exactly the paths that its pieces fit.
pub proof fn patterns_cover_what_they_fit(pieces: Seq<Piece>, slash: bool, path: Seq<u8>)
    requires
        well_formed(pieces, slash),
    ensures
        pattern::lowered(pattern_text(texts(pieces), slash)) is Ok,
        routing::covers(
            routing::key_of(pattern::lowered(pattern_text(texts(pieces), slash))->Ok_0),
            path,
        ) <==> path.len() > 0 && path[0] == '/' as u8 && fits(pieces, slash, path.skip(1)),
{
    patterns_say_what_is_written(pieces, slash);
    lemma_fits(pieces, slash, path.skip(1));
    let segs = pieces.map_values(|piece: Piece| meaning(piece));
    let key = routing::key_from(segs, slash);
    assert(segs[0] == meaning(pieces[0]));
    assert(key != routing::here(Tail::Leaf)) by {
        if !(pieces[0] is Rest) {
            assert(key.steps.len() > 0);
        }
    }
}

/// Segments one after the other.
proof fn lemma_slashed_concat(a: Seq<Seq<char>>, b: Seq<Seq<char>>)
    ensures
        slashed(a + b) == slashed(a) + slashed(b),
    decreases b.len(),
{
    if b.len() == 0 {
        assert(a + b =~= a);
        assert(slashed(a) + slashed(b) =~= slashed(a));
    } else {
        lemma_slashed_concat(a, b.drop_last());
        assert((a + b).drop_last() =~= a + b.drop_last());
        assert(slashed(a + b) =~= slashed(a) + slashed(b));
    }
}

/// The parts of a text, put together again.
proof fn lemma_split_slashed(text: Seq<char>)
    ensures
        slashed(pattern::split(text)) == seq!['/'] + text,
        forall|i: int|
            0 <= i < pattern::split(text).len() ==> !(#[trigger] pattern::split(text)[i]).contains(
                '/',
            ),
        pattern::split(text).len() > 0,
    decreases text.len(),
{
    let k = pattern::next_char(text, '/', 0);
    pattern::lemma_next_char(text, '/', 0);
    let first = text.take(k);
    assert(!first.contains('/')) by {
        if first.contains('/') {
            let i = first.index_of('/');
            assert(text[i] != '/');
        }
    }
    let one = seq![first];
    assert(one.drop_last() =~= Seq::<Seq<char>>::empty());
    assert(slashed(one.drop_last()) =~= Seq::<char>::empty());
    assert(slashed(one) =~= seq!['/'] + first);
    if k >= text.len() {
        assert(first =~= text);
        assert(pattern::split(text) =~= one);
    } else {
        let rest = text.skip(k + 1);
        lemma_split_slashed(rest);
        lemma_slashed_concat(one, pattern::split(rest));
        assert(text =~= first + seq!['/'] + rest);
        assert(slashed(pattern::split(text)) =~= seq!['/'] + text);
        let parts = pattern::split(text);
        assert forall|i: int| 0 <= i < parts.len() implies !(#[trigger] parts[i]).contains('/') by {
            if i > 0 {
                assert(parts[i] == pattern::split(rest)[i - 1]);
            }
        }
    }
}

/// A text without braces is written as it is.
proof fn lemma_doubled_plain(text: Seq<char>)
    requires
        !text.contains('{'),
        !text.contains('}'),
    ensures
        doubled(text) == text,
    decreases text.len(),
{
    if text.len() > 0 {
        let less = text.drop_last();
        assert(text.contains(text.last()));
        assert forall|i: int| 0 <= i < less.len() implies #[trigger] less[i] != '{' && less[i]
            != '}' by {
            assert(text.contains(text[i]));
        }
        lemma_doubled_plain(less);
        assert(less.push(text.last()) =~= text);
    } else {
        assert(text =~= Seq::<char>::empty());
    }
}

/// Texts fit their own UTF-8 form, one slash between two of them.
proof fn lemma_texts_fit(pieces: Seq<Piece>, segs: Seq<Seq<char>>, slash: bool, s: Seq<u8>)
    requires
        well_formed(pieces, slash),
        segs.len() == pieces.len(),
        forall|i: int| 0 <= i < pieces.len() ==> #[trigger] pieces[i] == Piece::Text(segs[i]),
    ensures
        fits(pieces, slash, s) <==> seq![0x2Fu8] + s == vstd::utf8::encode_utf8(
            pattern_text(segs, slash),
        ),
    decreases pieces.len(),
{
    let text = segs[0];
    let t = vstd::utf8::encode_utf8(text);
    assert(pieces[0] == Piece::Text(text));
    assert(writable(pieces[0]));
    exclusive_laws::lemma_plain_text(text);
    overlap_laws::lemma_encode_slash();
    let one = seq![text];
    assert(one.drop_last() =~= Seq::<Seq<char>>::empty());
    assert(slashed(one.drop_last()) =~= Seq::<char>::empty());
    assert(slashed(one) =~= seq!['/'] + text);
    overlap_laws::lemma_encode_concat(seq!['/'], text);
    let head = seq![0x2Fu8] + t;
    let whole = vstd::utf8::encode_utf8(pattern_text(segs, slash));
    if pieces.len() == 1 {
        assert(segs =~= one);
        if slash {
            overlap_laws::lemma_encode_concat(slashed(one), seq!['/']);
            assert(whole =~= head + seq![0x2Fu8]);
            if s.len() > 0 && fits_first(pieces[0], s, s.len() - 1) {
                assert(s =~= s.take(s.len() - 1) + seq![0x2Fu8]);
                assert(seq![0x2Fu8] + s =~= whole);
            }
            if seq![0x2Fu8] + s == whole {
                assert(s =~= (seq![0x2Fu8] + s).skip(1));
                assert(s =~= t + seq![0x2Fu8]);
                assert(s.take(s.len() - 1) =~= t);
            }
        } else {
            assert(whole =~= head);
            assert(s.take(s.len() as int) =~= s);
            if seq![0x2Fu8] + s == whole {
                assert(s =~= (seq![0x2Fu8] + s).skip(1));
                assert(s =~= t);
            }
        }
    } else {
        let rest = pieces.skip(1);
        let others = segs.skip(1);
        assert(well_formed(rest, slash)) by {
            assert forall|i: int| 0 <= i < rest.len() implies writable(#[trigger] rest[i]) by {
                assert(rest[i] == pieces[i + 1]);
            }
            assert forall|i: int| 0 <= i < rest.len() && (#[trigger] rest[i]) is Rest implies i
                == rest.len() - 1 && !slash by {
                assert(rest[i] == pieces[i + 1]);
            }
        }
        assert forall|i: int| 0 <= i < rest.len() implies #[trigger] rest[i] == Piece::Text(
            others[i],
        ) by {
            assert(rest[i] == pieces[i + 1]);
        }
        assert(segs =~= one + others);
        lemma_slashed_concat(one, others);
        assert(pattern_text(segs, slash) =~= slashed(one) + pattern_text(others, slash));
        overlap_laws::lemma_encode_concat(slashed(one), pattern_text(others, slash));
        let w = vstd::utf8::encode_utf8(pattern_text(others, slash));
        assert(whole == head + w);
        if fits(pieces, slash, s) {
            let k = choose|k: int| #[trigger]
                fits_first(pieces[0], s, k) && k < s.len() && fits(rest, slash, s.skip(k + 1));
            lemma_texts_fit(rest, others, slash, s.skip(k + 1));
            assert(s =~= t + (seq![0x2Fu8] + s.skip(k + 1)));
            assert(seq![0x2Fu8] + s =~= whole);
        }
        if seq![0x2Fu8] + s == whole {
            let k = t.len() as int;
            assert(pattern_text(others, slash).len() > 0 && pattern_text(others, slash)[0] == '/')
                by {
                let first = others[0];
                lemma_slashed_concat(seq![first], others.skip(1));
                assert(others =~= seq![first] + others.skip(1));
                let lone = seq![first];
                assert(lone.drop_last() =~= Seq::<Seq<char>>::empty());
                assert(slashed(lone.drop_last()) =~= Seq::<char>::empty());
                assert(slashed(lone) =~= seq!['/'] + first);
            }
            lemma_encoded_slash_first(pattern_text(others, slash));
            assert(s =~= (seq![0x2Fu8] + s).skip(1));
            assert(s =~= t + w);
            assert(s.take(k) =~= t);
            assert(s[k] == 0x2F);
            assert(seq![0x2Fu8] + s.skip(k + 1) =~= w);
            lemma_texts_fit(rest, others, slash, s.skip(k + 1));
            assert(fits_first(pieces[0], s, k));
        }
    }
}

pub proof fn lemma_encoded_slash_first(text: Seq<char>)
    requires
        text.len() > 0,
        text[0] == '/',
    ensures
        vstd::utf8::encode_utf8(text).len() > 0,
        vstd::utf8::encode_utf8(text)[0] == 0x2F,
{
    overlap_laws::lemma_encode_slash();
    overlap_laws::lemma_encode_concat(seq!['/'], text.skip(1));
    assert(text =~= seq!['/'] + text.skip(1));
}

/// Whether the pattern is static: it begins with a slash, and holds no brace and no empty
/// segment.
pub open spec fn is_static(pat: Seq<char>) -> bool {
    &&& pat.len() > 0 && pat[0] == '/'
    &&& forall|i: int| 0 <= i < pat.len() ==> #[trigger] pat[i] != '{' && pat[i] != '}'
    &&& forall|i: int| 0 < i < pat.len() ==> !(pat[i - 1] == '/' && #[trigger] pat[i] == '/')
}

/// A static pattern is made of its segments.
pub proof fn lemma_static_pieces(pat: Seq<char>) -> (segs: Seq<Seq<char>>)
    requires
        is_static(pat),
        pat.len() > 1,
    ensures
        well_formed(segs.map_values(|seg: Seq<char>| Piece::Text(seg)), pat.last() == '/'),
        texts(segs.map_values(|seg: Seq<char>| Piece::Text(seg))) == segs,
        pattern_text(segs, pat.last() == '/') == pat,
{
    let slash = pat.last() == '/';
    let body = pat.subrange(
        1,
        if slash {
            pat.len() - 1
        } else {
            pat.len() as int
        },
    );
    let segs = pattern::split(body);
    lemma_split_slashed(body);
    assert(pattern_text(segs, slash) =~= pat);
    let pieces = segs.map_values(|seg: Seq<char>| Piece::Text(seg));
    assert forall|i: int| 0 <= i < segs.len() implies {
        &&& (#[trigger] segs[i]).len() > 0
        &&& !segs[i].contains('{')
        &&& !segs[i].contains('}')
    } by {
        let a = segs.take(i);
        let b = segs.skip(i + 1);
        assert(segs =~= a + seq![segs[i]] + b);
        lemma_slashed_concat(a + seq![segs[i]], b);
        lemma_slashed_concat(a, seq![segs[i]]);
        let lone = seq![segs[i]];
        assert(lone.drop_last() =~= Seq::<Seq<char>>::empty());
        assert(slashed(lone.drop_last()) =~= Seq::<char>::empty());
        assert(slashed(lone) =~= seq!['/'] + segs[i]);
        let n = slashed(a).len() as int;
        let all = slashed(segs);
        assert(all =~= slashed(a) + (seq!['/'] + segs[i]) + slashed(b));
        assert(all =~= seq!['/'] + body);
        assert(forall|j: int| 0 <= j < all.len() ==> all[j] == pat[j]);
        assert(all[n] == '/');
        if segs[i].len() == 0 {
            if b.len() > 0 {
                let first = b[0];
                lemma_slashed_concat(seq![first], b.skip(1));
                assert(b =~= seq![first] + b.skip(1));
                let one = seq![first];
                assert(one.drop_last() =~= Seq::<Seq<char>>::empty());
                assert(slashed(one.drop_last()) =~= Seq::<char>::empty());
                assert(slashed(one) =~= seq!['/'] + first);
                assert(all[n + 1] == '/');
                assert(pat[n + 1] == '/' && pat[n + 1 - 1] == '/');
            } else {
                assert(slashed(b) =~= Seq::<char>::empty());
                assert(all.len() == n + 1);
                if slash {
                    assert(pat[n + 1] == '/' && pat[n + 1 - 1] == '/');
                } else {
                    assert(pat.len() == n + 1);
                    assert(pat.last() == pat[n]);
                }
            }
        }
        assert forall|j: int| 0 <= j < segs[i].len() implies #[trigger] segs[i][j] != '{'
            && segs[i][j] != '}' by {
            assert(segs[i][j] == all[n + 1 + j]);
            assert(pat[n + 1 + j] != '{');
        }
    }
    assert forall|i: int| 0 <= i < pieces.len() implies writable(#[trigger] pieces[i]) by {
        assert(segs[i].len() > 0);
    }
    assert forall|i: int| 0 <= i < segs.len() implies #[trigger] texts(pieces)[i] == segs[i] by {
        assert(segs[i].len() > 0);
        lemma_doubled_plain(segs[i]);
    }
    assert(texts(pieces) =~= segs);
    segs
}

/// A static pattern is made of literals.
pub proof fn lemma_static_shape(pat: Seq<char>) -> (shape: Shape)
    requires
        is_static(pat),
    ensures
        pattern::lowered(pat) == Ok::<Shape, LowerError>(shape),
        forall|i: int| 0 <= i < shape.segments.len() ==> (#[trigger] shape.segments[i]) is Literal,
{
    if pat.len() == 1 {
        assert(pat =~= seq!['/']);
        assert(pattern::pattern_body(pat) =~= Seq::<char>::empty());
        Shape { segments: Seq::empty(), trailing_slash: false }
    } else {
        let segs = lemma_static_pieces(pat);
        let pieces = segs.map_values(|seg: Seq<char>| Piece::Text(seg));
        patterns_say_what_is_written(pieces, pat.last() == '/');
        Shape {
            segments: pieces.map_values(|piece: Piece| meaning(piece)),
            trailing_slash: pat.last() == '/',
        }
    }
}

/// Nothing fits an empty body.
pub proof fn lemma_nothing_fits(pieces: Seq<Piece>, slash: bool)
    requires
        well_formed(pieces, slash),
    ensures
        forall|s: Seq<u8>| s.len() == 0 ==> !(#[trigger] fits(pieces, slash, s)),
{
    assert forall|s: Seq<u8>| s.len() == 0 implies !(#[trigger] fits(pieces, slash, s)) by {
        lemma_fits(pieces, slash, s);
    }
}

/// A static pattern covers exactly itself: it is a valid pattern, and it covers a path if and
/// only if the path is its UTF-8 form.
pub proof fn static_patterns_cover_themselves(pat: Seq<char>, path: Seq<u8>)
    requires
        is_static(pat),
    ensures
        pattern::lowered(pat) is Ok,
        routing::covers(routing::key_of(pattern::lowered(pat)->Ok_0), path) <==> path
            == vstd::utf8::encode_utf8(pat),
{
    if pat.len() == 1 {
        assert(pat =~= seq!['/']);
        overlap_laws::lemma_encode_slash();
        assert(pattern::pattern_body(pat) =~= Seq::<char>::empty());
        assert(pattern::lowered(pat) == Ok::<Shape, LowerError>(
            Shape { segments: Seq::empty(), trailing_slash: false },
        ));
        if path.len() == 1 && path[0] == 0x2F {
            assert(path =~= seq![0x2Fu8]);
        }
    } else {
        let segs = lemma_static_pieces(pat);
        let slash = pat.last() == '/';
        let pieces = segs.map_values(|seg: Seq<char>| Piece::Text(seg));
        patterns_cover_what_they_fit(pieces, slash, path);
        lemma_encoded_slash_first(pat);
        if path.len() > 0 && path[0] == 0x2F {
            lemma_texts_fit(pieces, segs, slash, path.skip(1));
            assert(seq![0x2Fu8] + path.skip(1) =~= path);
        }
    }
}

/// A pattern that does not begin with a slash is refused as such.
pub proof fn patterns_begin_with_a_slash(pat: Seq<char>)
    ensures
        pattern::lowered(pat) == Err::<Shape, LowerError>(LowerError::MissingLeadingSlash) <==> {
            pat.len() == 0 || pat[0] != '/'
        },
{
    if pat.len() > 0 && pat[0] == '/' {
        lemma_other_faults(pat, 0);
    }
}

proof fn lemma_other_faults(pat: Seq<char>, i: int)
    requires
        0 <= i,
    ensures
        pattern::lowered_from(pat, i) != Err::<Shape, LowerError>(LowerError::MissingLeadingSlash),
    decreases pattern::pattern_parts(pat).len() - i,
{
    if i < pattern::pattern_parts(pat).len() {
        lemma_other_faults(pat, i + 1);
    }
}

/// The first segment at fault decides: an empty one, one that cannot be read, or a catch-all
/// that something follows. Where no segment is at fault, the pattern is valid.
pub proof fn first_faulty_segment_decides(segs: Seq<Seq<char>>, slash: bool, i: int)
    requires
        segs.len() > 0,
        forall|j: int| 0 <= j < segs.len() ==> !(#[trigger] segs[j]).contains('/'),
        segs.last().len() > 0 || slash,
        segs.len() > 1 || segs[0].len() > 0,
        0 <= i <= segs.len(),
        forall|j: int| 0 <= j < i ==> (#[trigger] segs[j]).len() > 0 && match pattern::brace_segment(
            segs[j],
        ) {
            Ok(Seg::CatchAll) => j == segs.len() - 1 && !slash,
            Ok(_) => true,
            Err(_) => false,
        },
    ensures
        i == segs.len() ==> pattern::lowered(pattern_text(segs, slash)) is Ok,
        i < segs.len() ==> {
            let lowered = pattern::lowered(pattern_text(segs, slash));
            if segs[i].len() == 0 {
                lowered == Err::<Shape, LowerError>(LowerError::EmptyInteriorSegment)
            } else {
                match pattern::brace_segment(segs[i]) {
                    Err(e) => lowered == Err::<Shape, LowerError>(e),
                    Ok(Seg::CatchAll) => i < segs.len() - 1 || slash ==> lowered == Err::<
                        Shape,
                        LowerError,
                    >(LowerError::CatchAllNotLast),
                    Ok(_) => true,
                }
            }
        },
{
    lemma_slashed_parts(segs);
    let pat = pattern_text(segs, slash);
    let plain = slashed(segs);
    assert(pat[0] == '/');
    if !slash {
        assert(plain.last() == segs.last().last());
        assert(segs.last().contains(segs.last().last()));
    }
    assert(pattern::ends_in_slash(pat) == slash);
    assert(pattern::pattern_body(pat) =~= plain.skip(1));
    assert(plain.skip(1).len() > 0) by {
        let less = segs.drop_last();
        assert(plain == slashed(less) + seq!['/'] + segs.last());
        if less.len() > 0 {
            assert(slashed(less) == slashed(less.drop_last()) + seq!['/'] + less.last());
        }
    }
    lemma_first_fault(pat, segs, slash, 0, i);
}

proof fn lemma_first_fault(pat: Seq<char>, segs: Seq<Seq<char>>, slash: bool, from: int, i: int)
    requires
        pattern::pattern_parts(pat) == segs,
        pattern::ends_in_slash(pat) == slash,
        0 <= from <= i <= segs.len(),
        forall|j: int| 0 <= j < i ==> (#[trigger] segs[j]).len() > 0 && match pattern::brace_segment(
            segs[j],
        ) {
            Ok(Seg::CatchAll) => j == segs.len() - 1 && !slash,
            Ok(_) => true,
            Err(_) => false,
        },
    ensures
        i == segs.len() ==> pattern::lowered_from(pat, from) is Ok,
        i < segs.len() && pattern::lower_part(pat, i) is Err ==> pattern::lowered_from(pat, from)
            == Err::<Shape, LowerError>(pattern::lower_part(pat, i)->Err_0),
    decreases i - from,
{
    if from < i {
        assert(segs[from].len() > 0);
        lemma_first_fault(pat, segs, slash, from + 1, i);
    }
}

/// How a piece is written where `*` stands for a parameter and for the rest: a text of stars
/// alone gets one more.
pub open spec fn starred(piece: Piece) -> Seq<char> {
    match piece {
        Piece::Text(text) => if forall|i: int| 0 <= i < text.len() ==> #[trigger] text[i] == '*' {
            text.push('*')
        } else {
            text
        },
        _ => seq!['*'],
    }
}

/// A pattern in the `*` notation says what its pieces say: a last star takes the rest, unless a
/// slash is behind it, and any other one a segment.
pub proof fn stars_say_what_is_written(pieces: Seq<Piece>, slash: bool)
    requires
        well_formed(pieces, slash),
        slash || !(pieces.last() is Param),
    ensures
        ({
            let pat = pattern_text(pieces.map_values(|piece: Piece| starred(piece)), slash);
            &&& pat.len() > 0 && pat[0] == '/'
            &&& forall|i: int|
                0 <= i < pattern::pattern_parts(pat).len() ==> (#[trigger] pattern::pattern_parts(
                    pat,
                )[i]).len() > 0
            &&& pattern::star_segments(pat) == pieces.map_values(|piece: Piece| meaning(piece))
            &&& pattern::ends_in_slash(pat) == slash
        }),
{
    let segs = pieces.map_values(|piece: Piece| starred(piece));
    let pat = pattern_text(segs, slash);
    assert forall|i: int| 0 <= i < segs.len() implies !(#[trigger] segs[i]).contains('/')
        && segs[i].len() > 0 && pattern::star_segment(segs[i]) == match pieces[i] {
        Piece::Text(text) => Seg::Literal(text),
        _ => Seg::Wildcard,
    } by {
        assert(segs[i] == starred(pieces[i]));
        assert(writable(pieces[i]));
        if let Piece::Text(text) = pieces[i] {
            if forall|j: int| 0 <= j < text.len() ==> #[trigger] text[j] == '*' {
                assert(segs[i].drop_last() =~= text);
                assert(forall|j: int| 0 <= j < segs[i].len() ==> #[trigger] segs[i][j] == '*');
            } else {
                let j = choose|j: int| 0 <= j < text.len() && #[trigger] text[j] != '*';
                assert(segs[i][j] != '*');
            }
        }
    }
    lemma_pattern_parts(segs, slash);
    let said = pieces.map_values(|piece: Piece| meaning(piece));
    assert forall|i: int| 0 <= i < said.len() implies #[trigger] pattern::star_segments(pat)[i]
        == said[i] by {
        assert(pattern::pattern_parts(pat)[i] == segs[i]);
        assert(writable(pieces[i]));
    }
    assert(pattern::star_segments(pat) =~= said);
}

} // verus!
