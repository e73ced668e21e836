//! The route grammar.
//!
//! A deliberately small, whole-segment, anonymous grammar:
//!
//! - a segment is a **literal** (matched byte-for-byte) or a **wildcard**, which matches
//!   exactly one non-empty segment, or a final **catch-all**, which matches the raw
//!   remainder (1+ bytes, `//` and trailing slashes included);
//! - a trailing `/` is significant (`/a` and `/a/` are distinct routes).
//!
//! Two notations are read into it: the public `{name}`/`{*name}` syntax
//! ([`lower_matchit`]) and a terse `*` syntax ([`parse_pattern`]).

use vstd::prelude::*;

use crate::text::chars_of;

verus! {

/// One segment of a parsed pattern.
#[derive(Clone, Debug, PartialEq, Eq)]
pub enum Segment {
    /// A literal segment, already unescaped; matched byte-for-byte.
    Literal(String),
    /// Matches exactly one non-empty segment.
    Wildcard,
    /// Matches the raw remainder (1+ bytes); final only.
    CatchAll,
}

/// A parsed pattern: its segments plus whether it ends in a significant trailing slash.
#[derive(Clone, Debug, PartialEq, Eq)]
pub struct Pattern {
    pub segments: Vec<Segment>,
    pub trailing_slash: bool,
}

/// What a segment says.
pub ghost enum Seg {
    Literal(Seq<char>),
    Wildcard,
    CatchAll,
}

/// What a pattern says.
#[verifier::ext_equal]
pub ghost struct Shape {
    pub segments: Seq<Seg>,
    pub trailing_slash: bool,
}

impl View for Segment {
    type V = Seg;

    open spec fn view(&self) -> Seg {
        match self {
            Segment::Literal(text) => Seg::Literal(text@),
            Segment::Wildcard => Seg::Wildcard,
            Segment::CatchAll => Seg::CatchAll,
        }
    }
}

impl View for Pattern {
    type V = Shape;

    open spec fn view(&self) -> Shape {
        Shape {
            segments: self.segments@.map_values(|s: Segment| s@),
            trailing_slash: self.trailing_slash,
        }
    }
}

/// Why a pattern string is not a valid route in the `*` notation.
#[derive(Clone, Copy, Debug, PartialEq, Eq, Structural)]
pub enum PatternError {
    /// The pattern did not begin with `/`.
    MissingLeadingSlash,
    /// An interior `//` (an empty, non-trailing segment).
    EmptyInteriorSegment,
}

/// Why a public pattern could not be lowered into this grammar.
#[derive(Clone, Copy, Debug, PartialEq, Eq, Structural)]
pub enum LowerError {
    /// The pattern did not begin with `/`.
    MissingLeadingSlash,
    /// An interior `//` (an empty, non-trailing segment).
    EmptyInteriorSegment,
    /// A param with a static prefix or suffix in its segment (`/v{ver}`). The
    /// whole-segment grammar cannot express these.
    PrefixSuffixParam,
    /// A catch-all `{*rest}` that is not the final segment.
    CatchAllNotLast,
    /// A malformed parameter group (stray or unterminated brace).
    MalformedParam,
    /// A parameter has no name, or its name contains `*`.
    InvalidParam,
}

/// The first position at or after `i` that holds `c`, or the length.
pub open spec fn next_char(text: Seq<char>, c: char, i: int) -> int
    decreases text.len() - i,
{
    if i >= text.len() || text[i] == c {
        i
    } else {
        next_char(text, c, i + 1)
    }
}

/// The parts of `text` between slashes.
pub open spec fn split(text: Seq<char>) -> Seq<Seq<char>>
    decreases text.len(),
{
    let k = next_char(text, '/', 0);
    if k < 0 || k >= text.len() {
        seq![text]
    } else {
        seq![text.take(k)] + split(text.skip(k + 1))
    }
}

/// Whether the pattern ends in a significant trailing slash.
pub open spec fn ends_in_slash(pat: Seq<char>) -> bool {
    pat.len() > 1 && pat.last() == '/'
}

/// The pattern without its leading slash and its significant trailing slash.
pub open spec fn pattern_body(pat: Seq<char>) -> Seq<char> {
    pat.subrange(
        1,
        if ends_in_slash(pat) {
            pat.len() - 1
        } else {
            pat.len() as int
        },
    )
}

/// The segments' texts: none where the body is empty.
pub open spec fn pattern_parts(pat: Seq<char>) -> Seq<Seq<char>> {
    if pattern_body(pat).len() == 0 {
        Seq::empty()
    } else {
        split(pattern_body(pat))
    }
}

pub proof fn lemma_next_char(text: Seq<char>, c: char, i: int)
    requires
        0 <= i <= text.len(),
    ensures
        i <= next_char(text, c, i) <= text.len(),
        next_char(text, c, i) < text.len() ==> text[next_char(text, c, i)] == c,
        forall|j: int| i <= j < next_char(text, c, i) ==> #[trigger] text[j] != c,
    decreases text.len() - i,
{
    if i < text.len() && text[i] != c {
        lemma_next_char(text, c, i + 1);
    }
}

/// The first position at or after `from` that holds `c`, or the length.
fn find_char(chars: &Vec<char>, c: char, from: usize) -> (at: usize)
    requires
        from <= chars@.len(),
    ensures
        at == next_char(chars@, c, from as int),
        from <= at <= chars@.len(),
{
    proof {
        lemma_next_char(chars@, c, from as int);
    }
    let mut i: usize = from;
    while i < chars.len() && chars[i] != c
        invariant
            from <= i <= chars@.len(),
            next_char(chars@, c, from as int) == next_char(chars@, c, i as int),
        decreases chars@.len() - i,
    {
        i = i + 1;
    }
    i
}

/// Splits at slashes.
fn split_slashes<'a>(text: &'a str) -> (parts: Vec<&'a str>)
    ensures
        parts@.map_values(|p: &'a str| p@) == split(text@),
        parts@.len() > 0,
{
    let chars = chars_of(text);
    let mut parts: Vec<&'a str> = Vec::new();
    let mut from: usize = 0;
    let ghost whole = text@;
    assert(whole.skip(0) =~= whole);
    loop
        invariant
            from <= chars@.len(),
            chars@ == text@,
            whole == text@,
            split(whole) == parts@.map_values(|p: &'a str| p@) + split(whole.skip(from as int)),
        decreases chars@.len() - from,
    {
        let ghost rest = whole.skip(from as int);
        let at: usize = find_char(&chars, '/', from);
        proof {
            lemma_next_char(whole, '/', from as int);
            lemma_next_char(rest, '/', 0);
            lemma_next_char_skip(whole, '/', from as int, 0);
        }
        let ghost done = parts@.map_values(|p: &'a str| p@);
        let part: &'a str = text.substring_char(from, at);
        parts.push(part);
        assert(parts@.map_values(|p: &'a str| p@) =~= done.push(part@));
        if at == chars.len() {
            assert(part@ =~= rest);
            assert(done + split(rest) =~= done.push(part@));
            return parts;
        }
        proof {
            assert(part@ =~= rest.take(at - from));
            assert(rest.skip(at - from + 1) =~= whole.skip(at + 1));
            assert(done + split(rest) =~= done.push(part@) + split(whole.skip(at + 1)));
        }
        from = at + 1;
    }
}

proof fn lemma_next_char_skip(text: Seq<char>, c: char, n: int, i: int)
    requires
        0 <= n <= text.len(),
        0 <= i <= text.len() - n,
    ensures
        next_char(text.skip(n), c, i) == next_char(text, c, n + i) - n,
    decreases text.len() - n - i,
{
    if i < text.len() - n && text[n + i] != c {
        lemma_next_char_skip(text, c, n, i + 1);
    }
}

/// A segment in the `*` notation: a lone `*` is a wildcard, `k >= 2` stars are the
/// literal of `k - 1` stars, anything else is itself.
pub open spec fn star_segment(seg: Seq<char>) -> Seg {
    if seg.len() > 0 && (forall|i: int| 0 <= i < seg.len() ==> seg[i] == '*') {
        if seg.len() == 1 {
            Seg::Wildcard
        } else {
            Seg::Literal(seg.drop_last())
        }
    } else {
        Seg::Literal(seg)
    }
}

/// Classify one segment's text, applying the star-doubling escape.
pub fn classify_segment(seg: &str) -> (segment: Segment)
    ensures
        segment@ == star_segment(seg@),
{
    let chars = chars_of(seg);
    let mut i: usize = 0;
    while i < chars.len()
        invariant
            i <= chars@.len(),
            chars@ == seg@,
            forall|j: int| 0 <= j < i ==> chars@[j] == '*',
        decreases chars@.len() - i,
    {
        if chars[i] != '*' {
            return Segment::Literal(seg.to_owned());
        }
        i = i + 1;
    }
    if chars.len() == 0 {
        Segment::Literal(seg.to_owned())
    } else if chars.len() == 1 {
        Segment::Wildcard
    } else {
        let stars = seg.substring_char(0, chars.len() - 1);
        assert(stars@ =~= seg@.drop_last());
        Segment::Literal(stars.to_owned())
    }
}

/// The segments of a pattern in the `*` notation: a final lone `*` with no significant
/// trailing slash is a catch-all.
pub open spec fn star_segments(pat: Seq<char>) -> Seq<Seg> {
    let parts = pattern_parts(pat);
    Seq::new(
        parts.len(),
        |i: int|
            if i == parts.len() - 1 && !ends_in_slash(pat) && star_segment(parts[i])
                == Seg::Wildcard {
                Seg::CatchAll
            } else {
                star_segment(parts[i])
            },
    )
}

/// Parse a pattern string in the `*` notation.
pub fn parse_pattern(pat: &str) -> (parsed: Result<Pattern, PatternError>)
    ensures
        match parsed {
            Err(PatternError::MissingLeadingSlash) => pat@.len() == 0 || pat@[0] != '/',
            Err(PatternError::EmptyInteriorSegment) => {
                &&& pat@.len() > 0 && pat@[0] == '/'
                &&& exists|i: int|
                    0 <= i < pattern_parts(pat@).len() && (#[trigger] pattern_parts(pat@)[i]).len()
                        == 0
            },
            Ok(pattern) => {
                &&& pat@.len() > 0 && pat@[0] == '/'
                &&& forall|i: int|
                    0 <= i < pattern_parts(pat@).len() ==> (#[trigger] pattern_parts(pat@)[i]).len()
                        > 0
                &&& pattern@ == (Shape {
                    segments: star_segments(pat@),
                    trailing_slash: ends_in_slash(pat@),
                })
            },
        },
{
    let chars = chars_of(pat);
    let len: usize = chars.len();
    if len == 0 || chars[0] != '/' {
        return Err(PatternError::MissingLeadingSlash);
    }
    let trailing_slash = len > 1 && chars[len - 1] == '/';
    let end: usize = if trailing_slash {
        len - 1
    } else {
        len
    };
    let body = pat.substring_char(1, end);
    let mut segments: Vec<Segment> = Vec::new();
    if end > 1 {
        let parts = split_slashes(body);
        let mut i: usize = 0;
        while i < parts.len()
            invariant
                i <= parts@.len(),
                pat@.len() > 0 && pat@[0] == '/',
                parts@.map_values(|p: &str| p@) == pattern_parts(pat@),
                segments@.len() == i,
                forall|j: int|
                    0 <= j < i ==> (#[trigger] segments@[j])@ == star_segment(
                        pattern_parts(pat@)[j],
                    ) && pattern_parts(pat@)[j].len() > 0,
            decreases parts@.len() - i,
        {
            let seg: &str = parts[i];
            assert(pattern_parts(pat@)[i as int] == seg@);
            if seg.is_empty() {
                return Err(PatternError::EmptyInteriorSegment);
            }
            segments.push(classify_segment(seg));
            i = i + 1;
        }
    }
    let ghost plain = segments@;
    assert(plain.len() == pattern_parts(pat@).len());
    if !trailing_slash && segments.len() > 0 {
        let last: usize = segments.len() - 1;
        if matches!(segments[last], Segment::Wildcard) {
            segments.set(last, Segment::CatchAll);
        }
    }
    let pattern = Pattern { segments, trailing_slash };
    assert(pattern@.segments =~= star_segments(pat@)) by {
        assert forall|j: int| 0 <= j < plain.len() implies #[trigger] pattern@.segments[j]
            == star_segments(pat@)[j] by {
            assert(plain[j]@ == star_segment(pattern_parts(pat@)[j]));
        }
    }
    assert forall|j: int| 0 <= j < pattern_parts(pat@).len() implies (#[trigger] pattern_parts(
        pat@,
    )[j]).len() > 0 by {
        assert(plain[j]@ == star_segment(pattern_parts(pat@)[j]));
    }
    Ok(pattern)
}

/// Where the first parameter of a segment opens.
pub ghost enum Opening {
    /// The segment is static.
    Static,
    /// A `}` closes nothing.
    Stray,
    /// The first unescaped `{` stands here.
    At(int),
}

/// The first *unescaped* `{` at or after `i` begins a parameter; `{{` and `}}` are
/// literal braces.
pub open spec fn opening(seg: Seq<char>, i: int) -> Opening
    decreases seg.len() - i,
{
    if i >= seg.len() {
        Opening::Static
    } else if i + 1 < seg.len() && (seg[i] == '{' || seg[i] == '}') && seg[i + 1] == seg[i] {
        opening(seg, i + 2)
    } else if seg[i] == '{' {
        Opening::At(i)
    } else if seg[i] == '}' {
        Opening::Stray
    } else {
        opening(seg, i + 1)
    }
}

/// Doubled braces read as one.
pub open spec fn unescaped(seg: Seq<char>) -> Seq<char>
    decreases seg.len(),
{
    if seg.len() == 0 {
        Seq::empty()
    } else if seg.len() > 1 && (seg[0] == '{' || seg[0] == '}') && seg[1] == seg[0] {
        seq![seg[0]] + unescaped(seg.skip(2))
    } else {
        seq![seg[0]] + unescaped(seg.skip(1))
    }
}

/// A segment in the public notation. It is static, or a single `{...}` spanning the whole
/// segment; a `{...}` with surrounding static text cannot be expressed.
pub open spec fn brace_segment(seg: Seq<char>) -> Result<Seg, LowerError> {
    match opening(seg, 0) {
        Opening::Static => Ok(Seg::Literal(unescaped(seg))),
        Opening::Stray => Err(LowerError::MalformedParam),
        Opening::At(open) => {
            let close = next_char(seg, '}', open + 1);
            if close >= seg.len() {
                Err(LowerError::MalformedParam)
            } else if open != 0 || close != seg.len() - 1 {
                Err(LowerError::PrefixSuffixParam)
            } else {
                param_segment(seg.subrange(1, close))
            }
        },
    }
}

/// A parameter by what stands between its braces: a name, after `*` for a catch-all. The
/// name is not empty and holds no `*`.
pub open spec fn param_segment(inner: Seq<char>) -> Result<Seg, LowerError> {
    let catch_all = inner.len() > 0 && inner[0] == '*';
    let name = if catch_all {
        inner.skip(1)
    } else {
        inner
    };
    if name.len() == 0 || name.contains('*') {
        Err(LowerError::InvalidParam)
    } else if catch_all {
        Ok(Seg::CatchAll)
    } else {
        Ok(Seg::Wildcard)
    }
}

/// What the segment `i` of a pattern in the public notation lowers to.
pub open spec fn lower_part(pat: Seq<char>, i: int) -> Result<Seg, LowerError> {
    let parts = pattern_parts(pat);
    if parts[i].len() == 0 {
        Err(LowerError::EmptyInteriorSegment)
    } else {
        match brace_segment(parts[i]) {
            Ok(Seg::CatchAll) if i != parts.len() - 1 || ends_in_slash(pat) => Err(
                LowerError::CatchAllNotLast,
            ),
            lowered => lowered,
        }
    }
}

/// A pattern in the public notation: its first fault decides.
pub open spec fn lowered(pat: Seq<char>) -> Result<Shape, LowerError> {
    if pat.len() == 0 || pat[0] != '/' {
        Err(LowerError::MissingLeadingSlash)
    } else {
        lowered_from(pat, 0)
    }
}

/// The segments from `i` on.
pub open spec fn lowered_from(pat: Seq<char>, i: int) -> Result<Shape, LowerError>
    decreases pattern_parts(pat).len() - i,
{
    if i >= pattern_parts(pat).len() {
        Ok(Shape { segments: Seq::empty(), trailing_slash: ends_in_slash(pat) })
    } else {
        match lower_part(pat, i) {
            Err(e) => Err(e),
            Ok(seg) => match lowered_from(pat, i + 1) {
                Err(e) => Err(e),
                Ok(rest) => Ok(
                    Shape { segments: seq![seg] + rest.segments, trailing_slash: rest.trailing_slash },
                ),
            },
        }
    }
}

/// Lower a public **matchit-style** pattern string (`/users/{id}`, `/files/{*rest}`):
/// `{name}` becomes a wildcard, `{*name}` a catch-all, static text a literal (braces
/// unescaped). The names are discarded.
pub fn lower_matchit(pat: &str) -> (pattern: Result<Pattern, LowerError>)
    ensures
        match pattern {
            Ok(pattern) => lowered(pat@) == Ok::<Shape, LowerError>(pattern@),
            Err(e) => lowered(pat@) == Err::<Shape, LowerError>(e),
        },
{
    let chars = chars_of(pat);
    let len: usize = chars.len();
    if len == 0 || chars[0] != '/' {
        return Err(LowerError::MissingLeadingSlash);
    }
    let trailing_slash = len > 1 && chars[len - 1] == '/';
    let end: usize = if trailing_slash {
        len - 1
    } else {
        len
    };
    let body = pat.substring_char(1, end);
    let mut segments: Vec<Segment> = Vec::new();
    if end > 1 {
        let parts = split_slashes(body);
        let last: usize = parts.len() - 1;
        let mut i: usize = 0;
        assert(segments@.map_values(|s: Segment| s@) =~= Seq::empty());
        while i < parts.len()
            invariant
                i <= parts@.len(),
                last == parts@.len() - 1,
                pat@.len() > 0 && pat@[0] == '/',
                trailing_slash == ends_in_slash(pat@),
                parts@.map_values(|p: &str| p@) == pattern_parts(pat@),
                prefixed(segments@.map_values(|s: Segment| s@), lowered_from(pat@, i as int))
                    == lowered(pat@),
            decreases parts@.len() - i,
        {
            let seg: &str = parts[i];
            assert(pattern_parts(pat@)[i as int] == seg@);
            let ghost done = segments@.map_values(|s: Segment| s@);
            if seg.is_empty() {
                return Err(LowerError::EmptyInteriorSegment);
            }
            match lower_segment(seg) {
                Err(e) => {
                    return Err(e);
                },
                Ok(segment) => {
                    // A significant trailing slash means that a catch-all is not actually
                    // the final path component (`/{*rest}/`).
                    if matches!(segment, Segment::CatchAll) && (i != last || trailing_slash) {
                        return Err(LowerError::CatchAllNotLast);
                    }
                    segments.push(segment);
                    proof {
                        assert(segments@.map_values(|s: Segment| s@) =~= done.push(segment@));
                        let rest = lowered_from(pat@, i + 1);
                        if rest is Ok {
                            assert(done + (seq![segment@] + rest->Ok_0.segments) =~= done.push(
                                segment@,
                            ) + rest->Ok_0.segments);
                        }
                    }
                },
            }
            i = i + 1;
        }
    } else {
        assert(segments@.map_values(|s: Segment| s@) =~= Seq::empty());
    }
    let pattern = Pattern { segments, trailing_slash };
    assert(pattern@.segments + Seq::empty() =~= pattern@.segments);
    Ok(pattern)
}

/// `result` with `done` in front of its segments.
spec fn prefixed(done: Seq<Seg>, result: Result<Shape, LowerError>) -> Result<Shape, LowerError> {
    match result {
        Err(e) => Err(e),
        Ok(rest) => Ok(
            Shape { segments: done + rest.segments, trailing_slash: rest.trailing_slash },
        ),
    }
}

/// Lower one segment of the public notation.
pub fn lower_segment(seg: &str) -> (lowered: Result<Segment, LowerError>)
    ensures
        match lowered {
            Ok(segment) => brace_segment(seg@) == Ok::<Seg, LowerError>(segment@),
            Err(e) => brace_segment(seg@) == Err::<Seg, LowerError>(e),
        },
{
    let chars = chars_of(seg);
    let len: usize = chars.len();
    let mut i: usize = 0;
    // First *unescaped* `{` begins a parameter; `{{`/`}}` are literal braces.
    loop
        invariant
            i <= chars@.len(),
            len == chars@.len(),
            chars@ == seg@,
            opening(seg@, 0) == opening(seg@, i as int),
        ensures
            i < chars@.len(),
            opening(seg@, 0) == Opening::At(i as int),
        decreases chars@.len() - i,
    {
        if i >= len {
            return Ok(Segment::Literal(unescape_braces(seg)));
        }
        let c: char = chars[i];
        if (c == '{' || c == '}') && i + 1 < len && chars[i + 1] == c {
            i = i + 2;
        } else if c == '{' {
            break ;
        } else if c == '}' {
            return Err(LowerError::MalformedParam);
        } else {
            i = i + 1;
        }
    }
    let open: usize = i;
    // Param names contain no braces, so the next `}` closes the group.
    let close: usize = find_char(&chars, '}', open + 1);
    if close == len {
        return Err(LowerError::MalformedParam);
    }
    // A whole-segment param spans the entire segment; anything else is prefix/suffix.
    if open != 0 || close != len - 1 {
        return Err(LowerError::PrefixSuffixParam);
    }
    let ghost inner = seg@.subrange(1, close as int);
    let catch_all = close > 1 && chars[1] == '*';
    let name_start: usize = if catch_all {
        2
    } else {
        1
    };
    let ghost name = if catch_all {
        inner.skip(1)
    } else {
        inner
    };
    assert(name =~= seg@.subrange(name_start as int, close as int));
    if name_start == close {
        return Err(LowerError::InvalidParam);
    }
    let mut k: usize = name_start;
    while k < close
        invariant
            name_start <= k <= close < chars@.len(),
            chars@ == seg@,
            name == seg@.subrange(name_start as int, close as int),
            brace_segment(seg@) == param_segment(inner),
            name == if catch_all {
                inner.skip(1)
            } else {
                inner
            },
            catch_all == (inner.len() > 0 && inner[0] == '*'),
            forall|j: int| name_start <= j < k ==> chars@[j] != '*',
        decreases close - k,
    {
        if chars[k] == '*' {
            assert(name[k - name_start] == '*');
            return Err(LowerError::InvalidParam);
        }
        k = k + 1;
    }
    assert(!name.contains('*')) by {
        if name.contains('*') {
            let j = name.index_of('*');
            assert(chars@[name_start + j] == '*');
        }
    }
    if catch_all {
        Ok(Segment::CatchAll)
    } else {
        Ok(Segment::Wildcard)
    }
}

/// Unescape doubled braces so a literal segment matches the request path byte-for-byte.
pub fn unescape_braces(seg: &str) -> (text: String)
    ensures
        text@ == unescaped(seg@),
{
    let chars = chars_of(seg);
    let mut text = String::new();
    let mut i: usize = 0;
    assert(seg@.skip(0) =~= seg@);
    while i < chars.len()
        invariant
            i <= chars@.len(),
            chars@ == seg@,
            unescaped(seg@) == text@ + unescaped(seg@.skip(i as int)),
        decreases chars@.len() - i,
    {
        let ghost rest = seg@.skip(i as int);
        let ghost done = text@;
        let c: char = chars[i];
        let width: usize = if (c == '{' || c == '}') && i + 1 < chars.len() && chars[i + 1] == c {
            2
        } else {
            1
        };
        text.append(seg.substring_char(i, i + 1));
        proof {
            assert(rest.skip(width as int) =~= seg@.skip(i + width));
            assert(text@ =~= done + seq![c]);
            assert(text@ + unescaped(seg@.skip(i + width)) =~= done + unescaped(rest));
        }
        i = i + width;
    }
    assert(seg@.skip(i as int).len() == 0);
    assert(text@ =~= unescaped(seg@));
    text
}

/// A shape that the grammar allows: literals are not empty and hold no slash, and a
/// catch-all is the last segment, without a trailing slash.
pub open spec fn grammatical(shape: Shape) -> bool {
    forall|i: int|
        0 <= i < shape.segments.len() ==> match #[trigger] shape.segments[i] {
            Seg::Literal(text) => text.len() > 0 && !text.contains('/'),
            Seg::Wildcard => true,
            Seg::CatchAll => i == shape.segments.len() - 1 && !shape.trailing_slash,
        }
}

proof fn lemma_split_parts(text: Seq<char>)
    ensures
        forall|i: int| 0 <= i < split(text).len() ==> !(#[trigger] split(text)[i]).contains('/'),
    decreases text.len(),
{
    lemma_next_char(text, '/', 0);
    let k = next_char(text, '/', 0);
    if k < text.len() {
        lemma_split_parts(text.skip(k + 1));
        assert forall|i: int| 0 <= i < split(text).len() implies !(#[trigger] split(text)[i]).contains(
            '/',
        ) by {
            if i > 0 {
                assert(split(text)[i] == split(text.skip(k + 1))[i - 1]);
            }
        }
    }
}

proof fn lemma_unescaped(seg: Seq<char>)
    ensures
        seg.len() > 0 ==> unescaped(seg).len() > 0,
        !seg.contains('/') ==> !unescaped(seg).contains('/'),
    decreases seg.len(),
{
    if seg.len() > 0 {
        let n: int = if seg.len() > 1 && (seg[0] == '{' || seg[0] == '}') && seg[1] == seg[0] {
            2
        } else {
            1
        };
        let rest = seg.skip(n);
        lemma_unescaped(rest);
        if !seg.contains('/') {
            if rest.contains('/') {
                let j = rest.index_of('/');
                assert(seg[n + j] == '/');
            }
            assert(seg[0] != '/');
            if unescaped(seg).contains('/') {
                let j = unescaped(seg).index_of('/');
                assert(j > 0);
                assert(unescaped(rest)[j - 1] == '/');
            }
        }
    }
}

proof fn lemma_lowered_from(pat: Seq<char>, i: int)
    requires
        0 <= i <= pattern_parts(pat).len(),
    ensures
        lowered_from(pat, i) matches Ok(shape) ==> {
            &&& shape.trailing_slash == ends_in_slash(pat)
            &&& shape.segments.len() == pattern_parts(pat).len() - i
            &&& grammatical(shape)
        },
    decreases pattern_parts(pat).len() - i,
{
    if i < pattern_parts(pat).len() {
        lemma_lowered_from(pat, i + 1);
        lemma_split_parts(pattern_body(pat));
        lemma_unescaped(pattern_parts(pat)[i]);
        if lowered_from(pat, i) is Ok {
            let rest = lowered_from(pat, i + 1)->Ok_0;
            let shape = lowered_from(pat, i)->Ok_0;
            assert forall|j: int| 0 <= j < shape.segments.len() implies match #[trigger] shape.segments[j] {
                Seg::Literal(text) => text.len() > 0 && !text.contains('/'),
                Seg::Wildcard => true,
                Seg::CatchAll => j == shape.segments.len() - 1 && !shape.trailing_slash,
            } by {
                if j > 0 {
                    assert(shape.segments[j] == rest.segments[j - 1]);
                } else {
                    assert(shape.segments[0] == lower_part(pat, i)->Ok_0);
                }
            }
        }
    }
}

/// Every pattern that lowers is in the grammar.
pub proof fn lowered_is_grammatical(pat: Seq<char>)
    ensures
        lowered(pat) matches Ok(shape) ==> grammatical(shape),
{
    if lowered(pat) is Ok {
        lemma_lowered_from(pat, 0);
    }
}

} // verus!
