//! The structural-byte **alphabet scanner** for the path-confusion guard.
//!
//! This is the byte-level half of the guard: which structural byte families does a
//! request path carry, in which of its permitted percent interpretations, and the two
//! positional facts the scoped verdict anchors on: the earliest enabled occurrence and
//! the dot-segment pop count. It consults no route table; it only *recognises bytes*.

use vstd::prelude::*;
use vstd::string::*;

use crate::config::{DecodeDepth, StructuralClass, StructuralClasses};
use crate::percent::{fullwidth_at, interpretations, overlong_at, Interpretation};

verus! {

/// A set of structural *classes*: the classes **present** in a request path, or the
/// classes a configuration **enables**.
#[derive(Debug, Clone, Copy, PartialEq, Eq, Structural)]
pub struct ClassSet {
    pub separator: bool,
    pub dot_segment: bool,
    pub param: bool,
    pub truncation: bool,
    pub case: bool,
    pub backslash: bool,
}

impl ClassSet {
    /// Membership.
    pub open spec fn has(self, class: StructuralClass) -> bool {
        match class {
            StructuralClass::Separator => self.separator,
            StructuralClass::DotSegment => self.dot_segment,
            StructuralClass::MatrixParam => self.param,
            StructuralClass::NulTruncation => self.truncation,
            StructuralClass::Uppercase => self.case,
            StructuralClass::Backslash => self.backslash,
        }
    }

    /// Inclusion.
    pub open spec fn within(self, other: ClassSet) -> bool {
        forall|class: StructuralClass| #[trigger] self.has(class) ==> other.has(class)
    }

    /// The classes in both sets.
    pub open spec fn meet(self, other: ClassSet) -> ClassSet {
        ClassSet {
            separator: self.separator && other.separator,
            dot_segment: self.dot_segment && other.dot_segment,
            param: self.param && other.param,
            truncation: self.truncation && other.truncation,
            case: self.case && other.case,
            backslash: self.backslash && other.backslash,
        }
    }

    /// Whether nothing is in the set.
    pub open spec fn is_void(self) -> bool {
        forall|class: StructuralClass| !(#[trigger] self.has(class))
    }

    /// The empty set.
    pub fn empty() -> (set: Self)
        ensures
            forall|class: StructuralClass| !(#[trigger] set.has(class)),
    {
        ClassSet {
            separator: false,
            dot_segment: false,
            param: false,
            truncation: false,
            case: false,
            backslash: false,
        }
    }

    /// The set of one class.
    pub fn only(class: StructuralClass) -> (set: Self)
        ensures
            forall|other: StructuralClass| #[trigger] set.has(other) <==> other == class,
    {
        ClassSet {
            separator: matches!(class, StructuralClass::Separator),
            dot_segment: matches!(class, StructuralClass::DotSegment),
            param: matches!(class, StructuralClass::MatrixParam),
            truncation: matches!(class, StructuralClass::NulTruncation),
            case: matches!(class, StructuralClass::Uppercase),
            backslash: matches!(class, StructuralClass::Backslash),
        }
    }

    /// Add the classes in `other`.
    pub fn insert(&mut self, other: ClassSet)
        ensures
            forall|class: StructuralClass| #[trigger]
                final(self).has(class) <==> old(self).has(class) || other.has(class),
    {
        *self = self.union(other);
    }

    /// The union of two sets.
    pub fn union(self, other: ClassSet) -> (set: ClassSet)
        ensures
            forall|class: StructuralClass| #[trigger]
                set.has(class) <==> self.has(class) || other.has(class),
    {
        ClassSet {
            separator: self.separator || other.separator,
            dot_segment: self.dot_segment || other.dot_segment,
            param: self.param || other.param,
            truncation: self.truncation || other.truncation,
            case: self.case || other.case,
            backslash: self.backslash || other.backslash,
        }
    }

    /// Whether any class in `other` is also in `self`.
    pub fn contains_any(self, other: ClassSet) -> (any: bool)
        ensures
            any <==> exists|class: StructuralClass| #[trigger]
                self.has(class) && other.has(class),
    {
        let common = self.intersect(other);
        let any = !common.is_empty();
        proof {
            if any {
                let class = choose|class: StructuralClass| #[trigger] common.has(class);
                assert(self.has(class));
            } else {
                assert forall|class: StructuralClass| #[trigger] self.has(class) implies !other.has(
                    class,
                ) by {
                    assert(!common.has(class));
                }
            }
        }
        any
    }

    /// The intersection of two sets.
    pub fn intersect(self, other: ClassSet) -> (set: ClassSet)
        ensures
            forall|class: StructuralClass| #[trigger]
                set.has(class) <==> self.has(class) && other.has(class),
            set == self.meet(other),
    {
        ClassSet {
            separator: self.separator && other.separator,
            dot_segment: self.dot_segment && other.dot_segment,
            param: self.param && other.param,
            truncation: self.truncation && other.truncation,
            case: self.case && other.case,
            backslash: self.backslash && other.backslash,
        }
    }

    /// The set difference.
    pub fn without(self, other: ClassSet) -> (set: ClassSet)
        ensures
            forall|class: StructuralClass| #[trigger]
                set.has(class) <==> self.has(class) && !other.has(class),
    {
        ClassSet {
            separator: self.separator && !other.separator,
            dot_segment: self.dot_segment && !other.dot_segment,
            param: self.param && !other.param,
            truncation: self.truncation && !other.truncation,
            case: self.case && !other.case,
            backslash: self.backslash && !other.backslash,
        }
    }

    /// Whether the set is empty.
    pub fn is_empty(self) -> (empty: bool)
        ensures
            empty <==> self.is_void(),
    {
        let empty = !(self.separator || self.dot_segment || self.param || self.truncation
            || self.case || self.backslash);
        assert(self.has(StructuralClass::Separator) == self.separator);
        assert(self.has(StructuralClass::DotSegment) == self.dot_segment);
        assert(self.has(StructuralClass::MatrixParam) == self.param);
        assert(self.has(StructuralClass::NulTruncation) == self.truncation);
        assert(self.has(StructuralClass::Uppercase) == self.case);
        assert(self.has(StructuralClass::Backslash) == self.backslash);
        empty
    }
}

/// Alternate byte interpretations and the bounded percent-decode policy.
#[derive(Debug, Clone, Copy, PartialEq, Eq, Structural)]
pub struct Encodings {
    /// Recognise overlong UTF-8 forms of `/`.
    pub overlong_slash: bool,
    /// Recognise overlong UTF-8 forms of `.`.
    pub overlong_dot: bool,
    /// A second percent-decode pass may happen.
    pub double_decode: bool,
    /// Recognise the fullwidth-form structural confusables, in raw or percent-encoded
    /// form.
    pub unicode: bool,
}

impl Encodings {
    /// No alternate encodings.
    pub fn none() -> (enc: Self)
        ensures
            !enc.overlong_slash && !enc.overlong_dot && !enc.double_decode && !enc.unicode,
    {
        Encodings {
            overlong_slash: false,
            overlong_dot: false,
            double_decode: false,
            unicode: false,
        }
    }

    /// Every switch that is on here is on in `other`.
    pub open spec fn within(self, other: Encodings) -> bool {
        &&& self.overlong_slash ==> other.overlong_slash
        &&& self.overlong_dot ==> other.overlong_dot
        &&& self.double_decode ==> other.double_decode
        &&& self.unicode ==> other.unicode
    }
}

/// What the scanner looks for.
pub ghost struct Lens {
    pub enabled: ClassSet,
    pub enc: Encodings,
}

/// What the scanner looks at: one interpretation of a path, with the origin of each byte
/// and whether it stems from an escape.
pub ghost struct Scene {
    pub bytes: Seq<u8>,
    pub sources: Seq<int>,
    pub escaped: Seq<bool>,
}

/// The scene of `path` after `n` decode passes.
pub open spec fn scene(path: Seq<u8>, n: nat) -> Scene {
    let r = crate::percent::reading(path, n);
    Scene {
        bytes: r.bytes,
        sources: r.sources,
        escaped: Seq::new(r.bytes.len(), |i: int| n > 0 && path[r.sources[i]] == 0x25),
    }
}

/// The alternate spelling that starts at `i`, if the encodings recognise one: the byte
/// it stands for and its length.
pub open spec fn form_at(b: Seq<u8>, enc: Encodings, i: int) -> Option<(u8, int)> {
    if enc.unicode && crate::percent::fullwidth_form(b, i) is Some {
        Some((crate::percent::fullwidth_form(b, i)->Some_0, 3))
    } else {
        match crate::percent::overlong_form(b, i) {
            Some((byte, width)) if (byte == 0x2F && enc.overlong_slash) || (byte == 0x2E
                && enc.overlong_dot) => Some((byte, width)),
            _ => None,
        }
    }
}

/// The number of bytes that spell the character at `i`.
pub open spec fn width_at(b: Seq<u8>, enc: Encodings, i: int) -> int {
    match form_at(b, enc, i) {
        Some((_, width)) => width,
        None => 1,
    }
}

/// Whether a character starts at `i`: no alternate spelling that starts earlier covers it.
pub open spec fn starts_at(b: Seq<u8>, enc: Encodings, i: int) -> bool {
    &&& 0 <= i < b.len()
    &&& width_at(b, enc, i - 1) <= 1
    &&& width_at(b, enc, i - 2) <= 2
    &&& width_at(b, enc, i - 3) <= 3
}

/// The byte that the character at `i` stands for.
pub open spec fn face_at(b: Seq<u8>, enc: Encodings, i: int) -> u8 {
    match form_at(b, enc, i) {
        Some((byte, _)) => byte,
        None => b[i],
    }
}

/// Whether the character at `i` arrived in an alternate or percent-encoded spelling.
pub open spec fn coded_at(s: Scene, enc: Encodings, i: int) -> bool {
    form_at(s.bytes, enc, i) is Some || s.escaped[i]
}

/// Whether the character before `i` stands for a slash.
pub open spec fn follows_slash(b: Seq<u8>, enc: Encodings, i: int) -> bool {
    exists|p: int| #[trigger]
        starts_at(b, enc, p) && p + width_at(b, enc, p) == i && face_at(b, enc, p) == 0x2F
}

/// The structural class of the character at `i`. A single literal `/` has none, nor has
/// a literal `.` by itself.
pub open spec fn class_at(s: Scene, enc: Encodings, i: int) -> Option<StructuralClass> {
    let face = face_at(s.bytes, enc, i);
    let coded = coded_at(s, enc, i);
    if face == 0x2F && (coded || follows_slash(s.bytes, enc, i)) {
        Some(StructuralClass::Separator)
    } else if face == 0x2E && coded {
        Some(StructuralClass::DotSegment)
    } else if face == 0x3B {
        Some(StructuralClass::MatrixParam)
    } else if face == 0x5C {
        Some(StructuralClass::Backslash)
    } else if face == 0 {
        Some(StructuralClass::NulTruncation)
    } else if 0x41 <= face <= 0x5A {
        Some(StructuralClass::Uppercase)
    } else {
        None
    }
}

/// Whether a segment ends at the character at `i`.
pub open spec fn separates(s: Scene, l: Lens, i: int) -> bool {
    &&& starts_at(s.bytes, l.enc, i)
    &&& {
        ||| face_at(s.bytes, l.enc, i) == 0x2F && (!coded_at(s, l.enc, i)
            || l.enabled.separator)
        ||| face_at(s.bytes, l.enc, i) == 0x5C && l.enabled.backslash
    }
}

/// Whether a segment begins at `a`.
pub open spec fn begins(s: Scene, l: Lens, a: int) -> bool {
    a == 0 || exists|p: int| #[trigger] separates(s, l, p) && p + width_at(s.bytes, l.enc, p) == a
}

/// The bytes from `a` to `b` are one segment.
pub open spec fn segment(s: Scene, l: Lens, a: int, b: int) -> bool {
    &&& begins(s, l, a)
    &&& a <= b <= s.bytes.len()
    &&& b == s.bytes.len() || separates(s, l, b)
    &&& forall|j: int| a <= j < b ==> !(#[trigger] separates(s, l, j))
}

/// Whether the content of a segment that ends at `b` stops at `m`: at its end, or at the
/// `;` of a parameter.
pub open spec fn content_stops(s: Scene, l: Lens, m: int, b: int) -> bool {
    m == b || (m < b && l.enabled.param && face_at(s.bytes, l.enc, m) == 0x3B)
}

/// Whether the segment from `a` to `b` is `.` or `..`, not counting its parameters.
pub open spec fn dots_only(s: Scene, l: Lens, a: int, b: int) -> bool {
    let m = a + width_at(s.bytes, l.enc, a);
    &&& a < b
    &&& face_at(s.bytes, l.enc, a) == 0x2E
    &&& {
        ||| content_stops(s, l, m, b)
        ||| m < b && face_at(s.bytes, l.enc, m) == 0x2E && content_stops(
            s,
            l,
            m + width_at(s.bytes, l.enc, m),
            b,
        )
    }
}

/// Whether a `.` in an alternate or percent-encoded spelling stands between `a` and `b`.
pub open spec fn coded_dot(s: Scene, l: Lens, a: int, b: int) -> bool {
    exists|j: int|
        a <= j < b && #[trigger] starts_at(s.bytes, l.enc, j) && face_at(s.bytes, l.enc, j)
            == 0x2E && coded_at(s, l.enc, j)
}

/// Whether the segment from `a` to `b` may turn out to be a dot-segment.
pub open spec fn may_climb(s: Scene, l: Lens, a: int, b: int) -> bool {
    segment(s, l, a, b) && (dots_only(s, l, a, b) || coded_dot(s, l, a, b))
}

/// Whether the segment that ends at `b` may turn out to be a dot-segment.
pub open spec fn climbs(s: Scene, l: Lens, b: int) -> bool {
    exists|a: int| #[trigger] may_climb(s, l, a, b)
}

/// How many segments that end before `n` may turn out to be dot-segments.
pub open spec fn climb_count(s: Scene, l: Lens, n: nat) -> nat
    decreases n,
{
    if n == 0 {
        0
    } else {
        climb_count(s, l, (n - 1) as nat) + if climbs(s, l, n - 1) {
            1nat
        } else {
            0
        }
    }
}

/// Whether the interpretation carries the class.
pub open spec fn carries(s: Scene, l: Lens, class: StructuralClass) -> bool {
    ||| exists|i: int| #[trigger]
        starts_at(s.bytes, l.enc, i) && class_at(s, l.enc, i) == Some(class)
    ||| class == StructuralClass::DotSegment && exists|a: int, b: int| #[trigger]
        segment(s, l, a, b) && dots_only(s, l, a, b)
}

/// Whether an enabled structural form occurs at the offset `o` of the original path.
pub open spec fn occurs(s: Scene, l: Lens, o: int) -> bool {
    ||| exists|i: int| #[trigger]
        starts_at(s.bytes, l.enc, i) && class_at(s, l.enc, i) is Some && l.enabled.has(
            class_at(s, l.enc, i)->Some_0,
        ) && s.sources[i] == o
    ||| l.enabled.dot_segment && exists|a: int, b: int| #[trigger]
        segment(s, l, a, b) && dots_only(s, l, a, b) && s.sources[a] == o
}

/// Whether `r` is what there is to say of one interpretation.
pub open spec fn describes(r: ScanResult, s: Scene, l: Lens) -> bool {
    &&& forall|class: StructuralClass| #[trigger] r.classes.has(class) <==> carries(s, l, class)
    &&& match r.earliest {
        Some(o) => occurs(s, l, o as int) && forall|x: int| #[trigger] occurs(s, l, x) ==> o <= x,
        None => forall|x: int| !(#[trigger] occurs(s, l, x)),
    }
    &&& r.dot_pops == climb_count(s, l, s.bytes.len() + 1)
}

/// The result of structural analysis: the classes present, plus the two positional
/// facts the scoped structural verdict anchors on.
#[derive(Debug, Clone, Copy)]
pub struct ScanResult {
    /// The classes present, enabled or not.
    pub classes: ClassSet,
    /// Byte offset of the first **enabled** structural occurrence in the original path:
    /// the `%` of an escape, the first byte of an alternate form, the raw byte itself,
    /// the first dot of a literal dot-segment, and for a `//` empty segment the
    /// **second** slash (a merge always keeps the first).
    pub earliest: Option<usize>,
    /// Conservative count of dot-segment-capable segments: each segment whose bare
    /// content before parameters is exactly `.`/`..`, or that carries an encoded dot
    /// anywhere.
    pub dot_pops: usize,
}

impl ScanResult {
    pub fn empty() -> (result: Self)
        ensures
            forall|class: StructuralClass| !(#[trigger] result.classes.has(class)),
            result.earliest is None,
            result.dot_pops == 0,
    {
        ScanResult { classes: ClassSet::empty(), earliest: None, dot_pops: 0 }
    }

    /// Union interpretations in original-input coordinates. The maximum climb count
    /// preserves every shallower interpretation without counting the same dot-segment
    /// again for each decoding pass.
    pub fn merge(&mut self, other: Self)
        ensures
            forall|class: StructuralClass| #[trigger]
                final(self).classes.has(class) <==> old(self).classes.has(class)
                    || other.classes.has(class),
            final(self).earliest == first_of(old(self).earliest, other.earliest),
            final(self).dot_pops == if old(self).dot_pops >= other.dot_pops {
                old(self).dot_pops
            } else {
                other.dot_pops
            },
    {
        self.classes.insert(other.classes);
        if let Some(offset) = other.earliest {
            self.note(offset);
        }
        if self.dot_pops < other.dot_pops {
            self.dot_pops = other.dot_pops;
        }
    }

    /// An enabled occurrence at `offset`.
    fn note(&mut self, offset: usize)
        ensures
            *final(self) == (ScanResult {
                earliest: first_of(old(self).earliest, Some(offset)),
                ..*old(self)
            }),
    {
        match self.earliest {
            Some(before) if before <= offset => {},
            _ => {
                self.earliest = Some(offset);
            },
        }
    }

    fn hit(&mut self, class: StructuralClass, offset: usize, enabled: ClassSet)
        ensures
            forall|other: StructuralClass| #[trigger]
                final(self).classes.has(other) <==> old(self).classes.has(other) || other == class,
            final(self).earliest == if enabled.has(class) {
                first_of(old(self).earliest, Some(offset))
            } else {
                old(self).earliest
            },
            final(self).dot_pops == old(self).dot_pops,
    {
        let only = ClassSet::only(class);
        self.classes.insert(only);
        assert(only.has(class));
        if only.contains_any(enabled) {
            self.note(offset);
        }
    }
}

/// The smaller of two offsets, where there are two.
pub open spec fn first_of(a: Option<usize>, b: Option<usize>) -> Option<usize> {
    match (a, b) {
        (Some(x), Some(y)) => if x <= y {
            Some(x)
        } else {
            Some(y)
        },
        (Some(x), None) => Some(x),
        (None, y) => y,
    }
}

/// Characters follow one another without overlap.
pub proof fn lemma_next_start(b: Seq<u8>, enc: Encodings, i: int)
    requires
        starts_at(b, enc, i),
    ensures
        1 <= width_at(b, enc, i) <= 4,
        i + width_at(b, enc, i) <= b.len(),
        forall|j: int| i < j < i + width_at(b, enc, i) ==> !(#[trigger] starts_at(b, enc, j)),
        i + width_at(b, enc, i) < b.len() ==> starts_at(b, enc, i + width_at(b, enc, i)),
{
    let w = width_at(b, enc, i);
    assert forall|j: int| i < j < i + w implies !(#[trigger] starts_at(b, enc, j)) by {
        assert(j - i == 1 || j - i == 2 || j - i == 3);
    }
    if w >= 2 {
        assert(0x80 <= b[i + 1] <= 0xBF);
        assert(width_at(b, enc, i + 1) == 1);
    }
    if w >= 3 {
        assert(0x80 <= b[i + 2] <= 0xBF);
        assert(width_at(b, enc, i + 2) == 1);
    }
    if w >= 4 {
        assert(0x80 <= b[i + 3] <= 0xBF);
        assert(width_at(b, enc, i + 3) == 1);
    }
}

pub proof fn lemma_start_order(b: Seq<u8>, enc: Encodings, p: int, i: int)
    requires
        starts_at(b, enc, p),
        p < i,
        i == b.len() || starts_at(b, enc, i),
    ensures
        p + width_at(b, enc, p) <= i,
{
    lemma_next_start(b, enc, p);
    assert(i - p == 1 || i - p == 2 || i - p == 3 || i - p >= 4);
}

/// Only the character at `i` can precede what follows it.
pub proof fn lemma_predecessor(b: Seq<u8>, enc: Encodings, i: int)
    requires
        starts_at(b, enc, i),
    ensures
        follows_slash(b, enc, i + width_at(b, enc, i)) <==> face_at(b, enc, i) == 0x2F,
        forall|p: int| #[trigger]
            starts_at(b, enc, p) && p + width_at(b, enc, p) == i + width_at(b, enc, i) ==> p == i,
{
    lemma_next_start(b, enc, i);
    let n = i + width_at(b, enc, i);
    assert forall|p: int| #[trigger] starts_at(b, enc, p) && p + width_at(b, enc, p) == n implies p
        == i by {
        if p < i {
            lemma_start_order(b, enc, p, i);
        } else if p > i {
            lemma_start_order(b, enc, i, p);
            lemma_next_start(b, enc, p);
        }
    }
}

/// A segment end has one beginning.
proof fn lemma_one_beginning(s: Scene, l: Lens, x: int, a: int, y: int)
    requires
        segment(s, l, x, y),
        segment(s, l, a, y),
    ensures
        x == a,
{
    lemma_no_later_beginning(s, l, x, a, y);
    lemma_no_later_beginning(s, l, a, x, y);
}

proof fn lemma_no_later_beginning(s: Scene, l: Lens, x: int, a: int, y: int)
    requires
        segment(s, l, x, y),
        begins(s, l, a),
        a <= y,
    ensures
        a <= x,
{
    lemma_begin_is_start(s, l, x);
    if x < a {
        let p = choose|p: int| #[trigger]
            separates(s, l, p) && p + width_at(s.bytes, l.enc, p) == a;
        lemma_next_start(s.bytes, l.enc, p);
        if p < x {
            lemma_start_order(s.bytes, l.enc, p, x);
        }
    }
}

pub proof fn lemma_begin_is_start(s: Scene, l: Lens, a: int)
    requires
        begins(s, l, a),
    ensures
        0 <= a <= s.bytes.len(),
        a < s.bytes.len() ==> starts_at(s.bytes, l.enc, a),
{
    if a != 0 {
        let p = choose|p: int| #[trigger]
            separates(s, l, p) && p + width_at(s.bytes, l.enc, p) == a;
        lemma_next_start(s.bytes, l.enc, p);
    }
}

/// What is carried up to `n`.
spec fn carries_to(s: Scene, l: Lens, n: int, class: StructuralClass) -> bool {
    ||| exists|i: int|
        i < n && #[trigger] starts_at(s.bytes, l.enc, i) && class_at(s, l.enc, i) == Some(class)
    ||| class == StructuralClass::DotSegment && exists|a: int, b: int|
        b < n && #[trigger] segment(s, l, a, b) && dots_only(s, l, a, b)
}

/// What occurs up to `n`.
spec fn occurs_to(s: Scene, l: Lens, n: int, o: int) -> bool {
    ||| exists|i: int|
        i < n && #[trigger] starts_at(s.bytes, l.enc, i) && class_at(s, l.enc, i) is Some
            && l.enabled.has(class_at(s, l.enc, i)->Some_0) && s.sources[i] == o
    ||| l.enabled.dot_segment && exists|a: int, b: int|
        b < n && #[trigger] segment(s, l, a, b) && dots_only(s, l, a, b) && s.sources[a] == o
}

#[verifier::opaque]
spec fn describes_to(r: ScanResult, s: Scene, l: Lens, n: int) -> bool {
    &&& forall|class: StructuralClass| #[trigger]
        r.classes.has(class) <==> carries_to(s, l, n, class)
    &&& match r.earliest {
        Some(o) => occurs_to(s, l, n, o as int) && forall|x: int| #[trigger]
            occurs_to(s, l, n, x) ==> o <= x,
        None => forall|x: int| !(#[trigger] occurs_to(s, l, n, x)),
    }
    &&& r.dot_pops == climb_count(s, l, n as nat)
}

/// Segment state shared by byte classification and climb counting. Encoded dots
/// count conservatively even inside content or parameters, as do alternate dots.
#[derive(Clone, Copy)]
struct DotSegment {
    bare_len: usize,
    bare_dots: usize,
    in_param: bool,
    alternate_dot: bool,
    start: usize,
}

/// `seg` describes the bytes from `a`, where a segment begins, to `i`; its content so
/// far ends at `e`.
#[verifier::opaque]
spec fn open_segment(s: Scene, l: Lens, a: int, e: int, i: int, seg: DotSegment) -> bool {
    let b = s.bytes;
    let m = a + width_at(b, l.enc, a);
    &&& begins(s, l, a)
    &&& a <= e <= i <= b.len()
    &&& i == b.len() || starts_at(b, l.enc, i)
    &&& forall|j: int| a <= j < i ==> !(#[trigger] separates(s, l, j))
    &&& if seg.in_param {
        e < i && l.enabled.param && starts_at(b, l.enc, e) && face_at(b, l.enc, e) == 0x3B
    } else {
        e == i
    }
    &&& l.enabled.param ==> forall|j: int|
        a <= j < e && #[trigger] starts_at(b, l.enc, j) ==> face_at(b, l.enc, j) != 0x3B
    &&& seg.bare_dots <= seg.bare_len <= e
    &&& seg.bare_len == 0 <==> e == a
    &&& seg.bare_len == 1 <==> a < e && e == m
    &&& seg.bare_len == 2 <==> a < e && m < e && e == m + width_at(b, l.enc, m)
    &&& seg.bare_len == 1 ==> (seg.bare_dots == 1 <==> face_at(b, l.enc, a) == 0x2E)
    &&& seg.bare_len == 2 ==> (seg.bare_dots == 2 <==> face_at(b, l.enc, a) == 0x2E && face_at(
        b,
        l.enc,
        m,
    ) == 0x2E)
    &&& seg.bare_len == 1 ==> (seg.bare_dots == 0 <==> face_at(b, l.enc, a) != 0x2E)
    &&& seg.alternate_dot <==> coded_dot(s, l, a, i)
    &&& a < b.len() ==> seg.start == s.sources[a]
}

impl DotSegment {
    /// Closes the segment that ends at `i`.
    fn finish(
        &self,
        result: &mut ScanResult,
        enabled: ClassSet,
        Ghost(s): Ghost<Scene>,
        Ghost(l): Ghost<Lens>,
        Ghost(a): Ghost<int>,
        Ghost(e): Ghost<int>,
        Ghost(i): Ghost<int>,
    )
        requires
            l.enabled == enabled,
            open_segment(s, l, a, e, i, *self),
            i == s.bytes.len() || separates(s, l, i),
            old(result).dot_pops == climb_count(s, l, i as nat),
            old(result).dot_pops < usize::MAX,
        ensures
            final(result).dot_pops == climb_count(s, l, (i + 1) as nat),
            forall|class: StructuralClass| #[trigger]
                final(result).classes.has(class) <==> old(result).classes.has(class) || (class
                    == StructuralClass::DotSegment && dots_only(s, l, a, i)),
            final(result).earliest == if dots_only(s, l, a, i) && enabled.dot_segment {
                first_of(old(result).earliest, Some(self.start))
            } else {
                old(result).earliest
            },
    {
        let literal = self.bare_len == self.bare_dots && (self.bare_len == 1 || self.bare_len == 2);
        proof {
            reveal(open_segment);
            lemma_begin_is_start(s, l, a);
            lemma_literal(s, l, a, e, i, *self);
            assert(segment(s, l, a, i));
            assert(may_climb(s, l, a, i) <==> literal || self.alternate_dot);
            assert(climbs(s, l, i) <==> may_climb(s, l, a, i)) by {
                if climbs(s, l, i) {
                    let x = choose|x: int| #[trigger] may_climb(s, l, x, i);
                    lemma_one_beginning(s, l, x, a, i);
                }
            }
        }
        if literal {
            result.hit(StructuralClass::DotSegment, self.start, enabled);
        }
        if literal || self.alternate_dot {
            result.dot_pops = result.dot_pops + 1;
        }
    }
}

proof fn lemma_literal(s: Scene, l: Lens, a: int, e: int, i: int, seg: DotSegment)
    requires
        open_segment(s, l, a, e, i, seg),
        i == s.bytes.len() || separates(s, l, i),
    ensures
        dots_only(s, l, a, i) <==> seg.bare_len == seg.bare_dots && 1 <= seg.bare_len <= 2,
{
    reveal(open_segment);
    let b = s.bytes;
    lemma_begin_is_start(s, l, a);
    if a < i {
        lemma_next_start(b, l.enc, a);
        lemma_start_order(b, l.enc, a, i);
        let m = a + width_at(b, l.enc, a);
        if a < e {
            lemma_start_order(b, l.enc, a, e);
        }
        if m < i {
            lemma_next_start(b, l.enc, m);
            lemma_start_order(b, l.enc, m, i);
            if m < e {
                lemma_start_order(b, l.enc, m, e);
            }
            let m2 = m + width_at(b, l.enc, m);
            if m2 < i {
                lemma_next_start(b, l.enc, m2);
            }
        }
    }
}

/// What the segment that ends at `i` adds.
spec fn closing_dots(s: Scene, l: Lens, i: int) -> bool {
    exists|a: int| #[trigger] segment(s, l, a, i) && dots_only(s, l, a, i)
}

spec fn closing_dots_at(s: Scene, l: Lens, i: int, o: int) -> bool {
    exists|a: int| #[trigger] segment(s, l, a, i) && dots_only(s, l, a, i) && s.sources[a] == o
}

spec fn token_at(s: Scene, l: Lens, i: int, o: int) -> bool {
    class_at(s, l.enc, i) is Some && l.enabled.has(class_at(s, l.enc, i)->Some_0) && s.sources[i]
        == o
}

proof fn lemma_extend(s: Scene, l: Lens, i: int)
    requires
        starts_at(s.bytes, l.enc, i),
    ensures
        forall|class: StructuralClass| #[trigger]
            carries_to(s, l, i + width_at(s.bytes, l.enc, i), class) <==> carries_to(s, l, i, class)
                || class_at(s, l.enc, i) == Some(class) || (class == StructuralClass::DotSegment
                && closing_dots(s, l, i)),
        forall|o: int| #[trigger]
            occurs_to(s, l, i + width_at(s.bytes, l.enc, i), o) <==> occurs_to(s, l, i, o)
                || token_at(s, l, i, o) || (l.enabled.dot_segment && closing_dots_at(s, l, i, o)),
        climb_count(s, l, (i + width_at(s.bytes, l.enc, i)) as nat) == climb_count(
            s,
            l,
            (i + 1) as nat,
        ),
        !separates(s, l, i) ==> !closing_dots(s, l, i) && climb_count(s, l, (i + 1) as nat)
            == climb_count(s, l, i as nat),
{
    let n = i + width_at(s.bytes, l.enc, i);
    lemma_next_start(s.bytes, l.enc, i);
    assert forall|y: int, x: int| i < y < n implies !(#[trigger] segment(s, l, x, y)) by {
        assert(!separates(s, l, y));
    }
    assert forall|y: int| i < y < n implies !(#[trigger] climbs(s, l, y)) by {
        if climbs(s, l, y) {
            let x = choose|x: int| #[trigger] may_climb(s, l, x, y);
            assert(segment(s, l, x, y));
        }
    }
    assert forall|class: StructuralClass| #[trigger] carries_to(s, l, n, class) <==> carries_to(
        s,
        l,
        i,
        class,
    ) || class_at(s, l.enc, i) == Some(class) || (class == StructuralClass::DotSegment
        && closing_dots(s, l, i)) by {
        if carries_to(s, l, n, class) {
            if exists|j: int|
                j < n && #[trigger] starts_at(s.bytes, l.enc, j) && class_at(s, l.enc, j) == Some(
                    class,
                ) {
                let j = choose|j: int|
                    j < n && #[trigger] starts_at(s.bytes, l.enc, j) && class_at(s, l.enc, j)
                        == Some(class);
                assert(j < i || j == i);
            } else {
                let (x, y) = choose|x: int, y: int|
                    y < n && #[trigger] segment(s, l, x, y) && dots_only(s, l, x, y);
                assert(y <= i);
            }
        }
    }
    assert forall|o: int| #[trigger] occurs_to(s, l, n, o) <==> occurs_to(s, l, i, o) || token_at(
        s,
        l,
        i,
        o,
    ) || (l.enabled.dot_segment && closing_dots_at(s, l, i, o)) by {
        if occurs_to(s, l, n, o) {
            if exists|j: int|
                j < n && #[trigger] starts_at(s.bytes, l.enc, j) && token_at(s, l, j, o) {
                let j = choose|j: int|
                    j < n && #[trigger] starts_at(s.bytes, l.enc, j) && token_at(s, l, j, o);
                assert(j < i || j == i);
            } else {
                let (x, y) = choose|x: int, y: int|
                    y < n && #[trigger] segment(s, l, x, y) && dots_only(s, l, x, y)
                        && s.sources[x] == o;
                assert(y <= i);
            }
        }
    }
    assert(climb_count(s, l, n as nat) == climb_count(s, l, (i + 1) as nat)) by {
        let w = width_at(s.bytes, l.enc, i);
        if w >= 2 {
            assert(climb_count(s, l, (i + 2) as nat) == climb_count(s, l, (i + 1) as nat));
        }
        if w >= 3 {
            assert(climb_count(s, l, (i + 3) as nat) == climb_count(s, l, (i + 2) as nat));
        }
        if w >= 4 {
            assert(climb_count(s, l, (i + 4) as nat) == climb_count(s, l, (i + 3) as nat));
        }
    }
}

/// Closing the last segment leaves nothing out.
proof fn lemma_close(s: Scene, l: Lens, r: ScanResult)
    requires
        describes_to(r, s, l, (s.bytes.len() + 1) as int),
    ensures
        describes(r, s, l),
{
    reveal(describes_to);
    let n = s.bytes.len() + 1;
    assert forall|class: StructuralClass| #[trigger] carries_to(s, l, n as int, class) == carries(
        s,
        l,
        class,
    ) by {
        if carries(s, l, class) && !(exists|i: int| #[trigger]
            starts_at(s.bytes, l.enc, i) && class_at(s, l.enc, i) == Some(class)) {
            let (x, y) = choose|x: int, y: int| #[trigger]
                segment(s, l, x, y) && dots_only(s, l, x, y);
            assert(y < n);
        }
    }
    assert forall|o: int| #[trigger] occurs(s, l, o) == occurs_to(s, l, n as int, o) by {
        if occurs(s, l, o) && !(exists|i: int| #[trigger]
            starts_at(s.bytes, l.enc, i) && token_at(s, l, i, o)) {
            let (x, y) = choose|x: int, y: int| #[trigger]
                segment(s, l, x, y) && dots_only(s, l, x, y) && s.sources[x] == o;
            assert(y < n);
        }
    }
    assert forall|class: StructuralClass| #[trigger] r.classes.has(class) <==> carries(
        s,
        l,
        class,
    ) by {
        assert(carries_to(s, l, n as int, class) == carries(s, l, class));
    }
    assert forall|x: int| #[trigger] occurs(s, l, x) implies r.earliest is Some
        && r.earliest->Some_0 <= x by {
        assert(occurs_to(s, l, n as int, x));
    }
}

proof fn lemma_climb_bound(s: Scene, l: Lens, n: nat)
    ensures
        climb_count(s, l, n) <= n,
        n > 0 ==> climb_count(s, l, n) < n,
    decreases n,
{
    if n > 0 {
        lemma_climb_bound(s, l, (n - 1) as nat);
        if n == 1 && climbs(s, l, 0) {
            let a = choose|a: int| #[trigger] may_climb(s, l, a, 0);
            lemma_begin_is_start(s, l, a);
        }
    }
}

/// After a separator a new segment is open.
proof fn lemma_open_fresh(s: Scene, l: Lens, i: int, seg: DotSegment)
    requires
        separates(s, l, i),
        ({
            let n = i + width_at(s.bytes, l.enc, i);
            n < s.bytes.len() ==> seg.start == s.sources[n]
        }),
        seg.bare_len == 0 && seg.bare_dots == 0 && !seg.in_param && !seg.alternate_dot,
    ensures
        ({
            let n = i + width_at(s.bytes, l.enc, i);
            open_segment(s, l, n, n, n, seg)
        }),
{
    reveal(open_segment);
    lemma_next_start(s.bytes, l.enc, i);
    let n = i + width_at(s.bytes, l.enc, i);
    assert(begins(s, l, n));
}

/// A character that is no separator extends the open segment.
proof fn lemma_open_more(s: Scene, l: Lens, a: int, e: int, i: int, seg: DotSegment, next: DotSegment)
    requires
        open_segment(s, l, a, e, i, seg),
        starts_at(s.bytes, l.enc, i),
        !separates(s, l, i),
        next.start == seg.start,
        ({
            let face = face_at(s.bytes, l.enc, i);
            if face == 0x3B && l.enabled.param {
                next == (DotSegment { in_param: true, ..seg })
            } else {
                &&& next.in_param == seg.in_param
                &&& next.alternate_dot == (seg.alternate_dot || (face == 0x2E && coded_at(
                    s,
                    l.enc,
                    i,
                )))
                &&& if seg.in_param {
                    next.bare_len == seg.bare_len && next.bare_dots == seg.bare_dots
                } else {
                    next.bare_len == seg.bare_len + 1 && next.bare_dots == seg.bare_dots + if face
                        == 0x2E {
                        1int
                    } else {
                        0
                    }
                }
            }
        }),
    ensures
        open_segment(
            s,
            l,
            a,
            if next.in_param {
                e
            } else {
                i + width_at(s.bytes, l.enc, i)
            },
            i + width_at(s.bytes, l.enc, i),
            next,
        ),
{
    reveal(open_segment);
    let b = s.bytes;
    let enc = l.enc;
    let n = i + width_at(b, enc, i);
    lemma_next_start(b, enc, i);
    lemma_begin_is_start(s, l, a);
    let m = a + width_at(b, enc, a);
    if a < i {
        lemma_start_order(b, enc, a, i);
        lemma_next_start(b, enc, a);
        if m < i {
            lemma_start_order(b, enc, m, i);
            lemma_next_start(b, enc, m);
        }
    }
    assert forall|j: int| a <= j < n implies !(#[trigger] separates(s, l, j)) by {
        if i < j {
            assert(!starts_at(b, enc, j));
        }
    }
    assert(coded_dot(s, l, a, n) <==> coded_dot(s, l, a, i) || (face_at(b, enc, i) == 0x2E
        && coded_at(s, enc, i))) by {
        if coded_dot(s, l, a, n) {
            let j = choose|j: int|
                a <= j < n && #[trigger] starts_at(b, enc, j) && face_at(b, enc, j) == 0x2E
                    && coded_at(s, enc, j);
            assert(j <= i);
        }
    }
}

/// What a token and the segment that it may close add to the description.
proof fn lemma_described(r0: ScanResult, r: ScanResult, s: Scene, l: Lens, i: int)
    requires
        starts_at(s.bytes, l.enc, i),
        describes_to(r0, s, l, i),
        forall|class: StructuralClass| #[trigger]
            r.classes.has(class) <==> r0.classes.has(class) || class_at(s, l.enc, i) == Some(class)
                || (class == StructuralClass::DotSegment && closing_dots(s, l, i)),
        ({
            let own = if class_at(s, l.enc, i) is Some && l.enabled.has(
                class_at(s, l.enc, i)->Some_0,
            ) {
                Some(s.sources[i] as usize)
            } else {
                None
            };
            let dots = if l.enabled.dot_segment && closing_dots(s, l, i) {
                Some(
                    s.sources[choose|a: int| #[trigger]
                        segment(s, l, a, i) && dots_only(s, l, a, i)] as usize,
                )
            } else {
                None
            };
            r.earliest == first_of(first_of(r0.earliest, own), dots)
        }),
        r.dot_pops == climb_count(s, l, (i + 1) as nat),
        s.sources.len() == s.bytes.len(),
        forall|j: int| 0 <= j < s.sources.len() ==> 0 <= #[trigger] s.sources[j] <= usize::MAX,
    ensures
        describes_to(r, s, l, i + width_at(s.bytes, l.enc, i)),
{
    reveal(describes_to);
    lemma_extend(s, l, i);
    let n = i + width_at(s.bytes, l.enc, i);
    assert forall|class: StructuralClass| #[trigger] r.classes.has(class) <==> carries_to(
        s,
        l,
        n,
        class,
    ) by {
        assert(r0.classes.has(class) <==> carries_to(s, l, i, class));
    }
    if closing_dots(s, l, i) {
        let a = choose|a: int| #[trigger] segment(s, l, a, i) && dots_only(s, l, a, i);
        assert forall|o: int| #[trigger] closing_dots_at(s, l, i, o) <==> o == s.sources[a] by {
            if closing_dots_at(s, l, i, o) {
                let x = choose|x: int| #[trigger]
                    segment(s, l, x, i) && dots_only(s, l, x, i) && s.sources[x] == o;
                lemma_one_beginning(s, l, x, a, i);
            }
        }
        lemma_begin_is_start(s, l, a);
        assert(0 <= s.sources[a] <= usize::MAX);
        assert(closing_dots_at(s, l, i, s.sources[a]));
    } else {
        assert forall|o: int| !(#[trigger] closing_dots_at(s, l, i, o)) by {
            if closing_dots_at(s, l, i, o) {
                let x = choose|x: int| #[trigger]
                    segment(s, l, x, i) && dots_only(s, l, x, i) && s.sources[x] == o;
                assert(closing_dots(s, l, i));
            }
        }
    }
    assert(0 <= s.sources[i] <= usize::MAX);
    assert forall|x: int| #[trigger] occurs_to(s, l, n, x) implies r.earliest is Some
        && r.earliest->Some_0 <= x by {
        assert(occurs_to(s, l, i, x) || token_at(s, l, i, x) || (l.enabled.dot_segment
            && closing_dots_at(s, l, i, x)));
    }
    if r.earliest is Some {
        let o = r.earliest->Some_0 as int;
        assert(occurs_to(s, l, i, o) || token_at(s, l, i, o) || (l.enabled.dot_segment
            && closing_dots_at(s, l, i, o)));
        assert(occurs_to(s, l, n, o));
    }
}

/// Reads the character at `i`: the byte it stands for, its width, and whether it came in
/// an alternate spelling.
fn character_at(bytes: &[u8], i: usize, enc: Encodings) -> (character: (u8, usize, bool))
    requires
        i < bytes@.len(),
    ensures
        character.0 == face_at(bytes@, enc, i as int),
        character.1 == width_at(bytes@, enc, i as int),
        character.2 == (form_at(bytes@, enc, i as int) is Some),
{
    if enc.unicode {
        if let Some((byte, width)) = fullwidth_at(bytes, i) {
            return (byte, width, true);
        }
    }
    if enc.overlong_slash || enc.overlong_dot {
        if let Some((byte, width)) = overlong_at(bytes, i) {
            if (byte == 0x2F && enc.overlong_slash) || (byte == 0x2E && enc.overlong_dot) {
                return (byte, width, true);
            }
        }
    }
    (bytes[i], 1, false)
}

/// The class of a character, given how it arrived and whether a slash precedes it.
fn classify(byte: u8, coded: bool, previous_slash: bool) -> (class: Option<StructuralClass>)
    ensures
        forall|s: Scene, enc: Encodings, i: int|
            face_at(s.bytes, enc, i) == byte && coded_at(s, enc, i) == coded && follows_slash(
                s.bytes,
                enc,
                i,
            ) == previous_slash ==> class == #[trigger] class_at(s, enc, i),
{
    if byte == 0x2F && (coded || previous_slash) {
        Some(StructuralClass::Separator)
    } else if byte == 0x2E && coded {
        Some(StructuralClass::DotSegment)
    } else if byte == 0x3B {
        Some(StructuralClass::MatrixParam)
    } else if byte == 0x5C {
        Some(StructuralClass::Backslash)
    } else if byte == 0 {
        Some(StructuralClass::NulTruncation)
    } else if 0x41 <= byte && byte <= 0x5A {
        Some(StructuralClass::Uppercase)
    } else {
        None
    }
}

/// Classify bytes, never percent spellings. A decoded slash/dot retains its source
/// provenance so it is still recognized as structural even though the decoded spelling
/// looks canonical.
pub fn scan_interpretation(
    view: &Interpretation<'_>,
    enabled: ClassSet,
    enc: Encodings,
) -> (result: ScanResult)
    requires
        exists|n: nat| view.reads(view.original@, n),
    ensures
        forall|n: nat| #[trigger]
            view.reads(view.original@, n) ==> describes(
                result,
                scene(view.original@, n),
                Lens { enabled, enc },
            ),
{
    let ghost path = view.original@;
    let ghost n = choose|n: nat| view.reads(path, n);
    let ghost s = scene(path, n);
    let ghost l = Lens { enabled, enc };
    let total: usize = view.original.len();
    proof {
        crate::percent::lemma_reading(path, n);
        assert(forall|j: int|
            0 <= j < s.sources.len() ==> 0 <= #[trigger] s.sources[j] < total);
    }
    let mut result = ScanResult::empty();
    let mut segment = DotSegment {
        bare_len: 0,
        bare_dots: 0,
        in_param: false,
        alternate_dot: false,
        start: 0,
    };
    let mut previous_slash = false;
    let mut i: usize = 0;
    let ghost mut a: int = 0;
    let ghost mut e: int = 0;
    proof {
        lemma_scan_begins(s, l, segment, result);
    }
    while i < view.bytes.len()
        invariant
            view.reads(path, n),
            path == view.original@,
            s == scene(path, n),
            l == (Lens { enabled, enc }),
            s.sources.len() == s.bytes.len(),
            forall|j: int|
                0 <= j < s.sources.len() ==> 0 <= #[trigger] s.sources[j] <= usize::MAX,
            view.bytes@ == s.bytes,
            i <= s.bytes.len(),
            open_segment(s, l, a, e, i as int, segment),
            describes_to(result, s, l, i as int),
            previous_slash == follows_slash(s.bytes, enc, i as int),
        decreases view.bytes@.len() - i,
    {
        let ghost r0 = result;
        let ghost seg0 = segment;
        let ghost i0 = i as int;
        proof {
            assert(starts_at(s.bytes, enc, i0) && seg0.bare_dots <= seg0.bare_len <= i0) by {
                reveal(open_segment);
            }
            assert(r0.dot_pops == climb_count(s, l, i as nat)) by {
                reveal(describes_to);
            }
            lemma_next_start(s.bytes, enc, i0);
            lemma_predecessor(s.bytes, enc, i0);
            lemma_climb_bound(s, l, i as nat);
        }
        let (byte, width, alternate) = character_at(&view.bytes, i, enc);
        let source: usize = view.source_offset(i);
        let encoded = alternate || view.escaped(i);
        assert(encoded == coded_at(s, enc, i0));
        assert(source == s.sources[i0]);
        let class = classify(byte, encoded, previous_slash);
        assert(class == class_at(s, enc, i0));
        if let Some(class) = class {
            result.hit(class, source, enabled);
        }
        let separator = (byte == 0x2F && (!encoded || enabled.separator)) || (byte == 0x5C
            && enabled.backslash);
        assert(separator == separates(s, l, i0));
        if separator {
            segment.finish(
                &mut result,
                enabled,
                Ghost(s),
                Ghost(l),
                Ghost(a),
                Ghost(e),
                Ghost(i as int),
            );
            segment = DotSegment {
                bare_len: 0,
                bare_dots: 0,
                in_param: false,
                alternate_dot: false,
                start: view.source_offset(i + width),
            };
            proof {
                lemma_closing(s, l, a, e, i0, seg0);
                lemma_described(r0, result, s, l, i0);
                a = i0 + width;
                e = a;
                lemma_open_fresh(s, l, i0, segment);
            }
        } else {
            if byte == 0x3B && enabled.param {
                segment.in_param = true;
            } else {
                if !segment.in_param {
                    segment.bare_len = segment.bare_len + 1;
                    if byte == 0x2E {
                        segment.bare_dots = segment.bare_dots + 1;
                    }
                }
                if byte == 0x2E && encoded {
                    segment.alternate_dot = true;
                }
            }
            proof {
                lemma_extend(s, l, i0);
                lemma_described(r0, result, s, l, i0);
                lemma_open_more(s, l, a, e, i0, seg0, segment);
                if !segment.in_param {
                    e = i0 + width;
                }
            }
        }
        previous_slash = byte == 0x2F;
        i = i + width;
    }
    let ghost r0 = result;
    proof {
        assert(r0.dot_pops == climb_count(s, l, i as nat)) by {
            reveal(describes_to);
        }
        lemma_climb_bound(s, l, i as nat);
        lemma_last_closing(s, l, a, e, segment);
    }
    segment.finish(
        &mut result,
        enabled,
        Ghost(s),
        Ghost(l),
        Ghost(a),
        Ghost(e),
        Ghost(i as int),
    );
    proof {
        lemma_described_end(r0, result, s, l, a, segment.start);
        lemma_close(s, l, result);
        assert forall|k: nat| #[trigger] view.reads(path, k) implies scene(path, k) == s by {
            assert(scene(path, k).escaped =~= s.escaped);
        }
    }
    result
}

/// The number of decode passes that change anything, of those that are permitted.
pub open spec fn last_pass(path: Seq<u8>, enc: Encodings) -> nat {
    crate::percent::effective_passes(path, crate::percent::pass_limit(enc.double_decode))
}

/// Whether some permitted interpretation of `path` carries the class.
pub open spec fn carried(path: Seq<u8>, l: Lens, class: StructuralClass) -> bool {
    exists|n: nat| n <= last_pass(path, l.enc) && #[trigger] carries(scene(path, n), l, class)
}

/// What there is to say of all permitted interpretations of a path together.
pub open spec fn describes_all(r: ScanResult, path: Seq<u8>, l: Lens) -> bool {
    describes_up_to(r, path, l, last_pass(path, l.enc))
}

/// What there is to say of the interpretations with up to `last` decode passes.
pub open spec fn describes_up_to(r: ScanResult, path: Seq<u8>, l: Lens, last: nat) -> bool {
    &&& forall|class: StructuralClass| #[trigger]
        r.classes.has(class) <==> exists|n: nat| n <= last && #[trigger] carries(scene(path, n), l, class)
    &&& match r.earliest {
        Some(o) => {
            &&& exists|n: nat| n <= last && #[trigger] occurs(scene(path, n), l, o as int)
            &&& forall|n: nat, x: int| n <= last && #[trigger] occurs(scene(path, n), l, x) ==> o <= x
        },
        None => forall|n: nat, x: int| n <= last ==> !(#[trigger] occurs(scene(path, n), l, x)),
    }
    &&& forall|n: nat| n <= last ==> #[trigger] climbs_in(path, l, n) <= r.dot_pops
    &&& exists|n: nat| n <= last && #[trigger] climbs_in(path, l, n) == r.dot_pops
}

/// How many segments may turn out to be dot-segments after `n` decode passes.
pub open spec fn climbs_in(path: Seq<u8>, l: Lens, n: nat) -> nat {
    climb_count(scene(path, n), l, scene(path, n).bytes.len() + 1)
}

/// All that there is to say of the permitted interpretations of a path.
pub open spec fn survey(path: Seq<u8>, l: Lens) -> ScanResult {
    choose|r: ScanResult| describes_all(r, path, l)
}

/// There is one thing to say of a path only.
pub proof fn lemma_one_survey(r: ScanResult, path: Seq<u8>, l: Lens)
    requires
        describes_all(r, path, l),
    ensures
        r == survey(path, l),
        describes_all(survey(path, l), path, l),
{
    let q = survey(path, l);
    assert(describes_all(q, path, l));
    assert(r.classes == q.classes) by {
        assert forall|class: StructuralClass| #[trigger] r.classes.has(class) == q.classes.has(
            class,
        ) by {}
        assert(r.classes.has(StructuralClass::Separator) == q.classes.has(
            StructuralClass::Separator,
        ));
        assert(r.classes.has(StructuralClass::DotSegment) == q.classes.has(
            StructuralClass::DotSegment,
        ));
        assert(r.classes.has(StructuralClass::MatrixParam) == q.classes.has(
            StructuralClass::MatrixParam,
        ));
        assert(r.classes.has(StructuralClass::NulTruncation) == q.classes.has(
            StructuralClass::NulTruncation,
        ));
        assert(r.classes.has(StructuralClass::Uppercase) == q.classes.has(
            StructuralClass::Uppercase,
        ));
        assert(r.classes.has(StructuralClass::Backslash) == q.classes.has(
            StructuralClass::Backslash,
        ));
    }
}

/// Scan all permitted interpretations, retaining original-input offsets.
pub fn scan(path: &str, enabled: ClassSet, enc: Encodings) -> (result: ScanResult)
    ensures
        describes_all(result, path.spec_bytes(), Lens { enabled, enc }),
        result == survey(path.spec_bytes(), Lens { enabled, enc }),
{
    let ghost l = Lens { enabled, enc };
    let path = path.as_bytes();
    let views = interpretations(path, enc.double_decode);
    assert(views@[0].reads(path@, 0));
    let mut result = scan_interpretation(&views[0], enabled, enc);
    let mut k: usize = 1;
    proof {
        assert(describes(result, scene(path@, 0), l));
        assert(climbs_in(path@, l, 0) == result.dot_pops);
        lemma_merge_first(result, path@, l);
    }
    while k < views.len()
        invariant
            1 <= k <= views@.len(),
            l == (Lens { enabled, enc }),
            forall|n: int| 0 <= n < views@.len() ==> (#[trigger] views@[n]).reads(path@, n as nat),
            describes_up_to(result, path@, l, (k - 1) as nat),
        decreases views@.len() - k,
    {
        assert(views@[k as int].reads(path@, k as nat));
        let ghost before = result;
        let other = scan_interpretation(&views[k], enabled, enc);
        assert(describes(other, scene(path@, k as nat), l));
        result.merge(other);
        proof {
            lemma_merge_next(before, other, result, path@, l, k as nat);
        }
        k = k + 1;
    }
    proof {
        lemma_one_survey(result, path@, l);
    }
    result
}

proof fn lemma_merge_first(r: ScanResult, path: Seq<u8>, l: Lens)
    requires
        describes(r, scene(path, 0), l),
    ensures
        describes_up_to(r, path, l, 0),
{
    assert forall|class: StructuralClass| #[trigger] r.classes.has(class) <==> exists|n: nat|
        n <= 0 && #[trigger] carries(scene(path, n), l, class) by {
        assert(r.classes.has(class) <==> carries(scene(path, 0), l, class));
    }
    assert(climbs_in(path, l, 0) == r.dot_pops);
}

proof fn lemma_merge_next(
    before: ScanResult,
    other: ScanResult,
    r: ScanResult,
    path: Seq<u8>,
    l: Lens,
    k: nat,
)
    requires
        k > 0,
        describes_up_to(before, path, l, (k - 1) as nat),
        describes(other, scene(path, k), l),
        forall|class: StructuralClass| #[trigger]
            r.classes.has(class) <==> before.classes.has(class) || other.classes.has(class),
        r.earliest == first_of(before.earliest, other.earliest),
        r.dot_pops == if before.dot_pops >= other.dot_pops {
            before.dot_pops
        } else {
            other.dot_pops
        },
    ensures
        describes_up_to(r, path, l, k),
{
    assert forall|class: StructuralClass| #[trigger] r.classes.has(class) <==> exists|n: nat|
        n <= k && #[trigger] carries(scene(path, n), l, class) by {
        assert(before.classes.has(class) <==> exists|n: nat|
            n <= k - 1 && #[trigger] carries(scene(path, n), l, class));
        assert(other.classes.has(class) <==> carries(scene(path, k), l, class));
    }
    assert forall|n: nat, x: int| n <= k && #[trigger] occurs(scene(path, n), l, x) implies r.earliest
        is Some && r.earliest->Some_0 <= x by {
        if n == k {
            assert(occurs(scene(path, k), l, x));
        } else {
            assert(n <= k - 1);
        }
    }
    assert forall|n: nat| n <= k implies #[trigger] climbs_in(path, l, n) <= r.dot_pops by {
        if n != k {
            assert(n <= k - 1);
        }
    }
    if before.dot_pops >= other.dot_pops {
        let n = choose|n: nat| n <= k - 1 && #[trigger] climbs_in(path, l, n) == before.dot_pops;
        assert(climbs_in(path, l, n) == r.dot_pops);
    } else {
        assert(climbs_in(path, l, k) == r.dot_pops);
    }
}

/// The classes that `path` carries in any permitted interpretation, enabled or not.
pub fn classes_present(path: &str, enabled: ClassSet, enc: Encodings) -> (classes: ClassSet)
    ensures
        forall|class: StructuralClass| #[trigger]
            classes.has(class) <==> carried(path.spec_bytes(), Lens { enabled, enc }, class),
        classes == survey(path.spec_bytes(), Lens { enabled, enc }).classes,
{
    let result = scan(path, enabled, enc);
    result.classes
}

/// The structural classes that a configuration makes dangerous: the always-on quartet,
/// and backslash where it is declared. Case is not derived here.
pub fn enabled_classes(classes: &StructuralClasses) -> (enabled: ClassSet)
    ensures
        enabled == classes_of(*classes),
{
    ClassSet {
        separator: true,
        dot_segment: true,
        param: true,
        truncation: true,
        case: false,
        backslash: classes.backslash,
    }
}

/// The always-on quartet, and backslash where it is declared.
pub open spec fn classes_of(classes: StructuralClasses) -> ClassSet {
    ClassSet {
        separator: true,
        dot_segment: true,
        param: true,
        truncation: true,
        case: false,
        backslash: classes.backslash,
    }
}

/// The alternate encodings the configuration calls for. Double-percent forms come from
/// the required decode-depth declaration, not from the opt-in class set.
pub fn enabled_encodings(classes: &StructuralClasses, depth: DecodeDepth) -> (enc: Encodings)
    ensures
        enc == encodings_of(*classes, depth),
{
    Encodings {
        overlong_slash: classes.overlong_slash,
        overlong_dot: classes.overlong_dot,
        double_decode: depth.is_up_to_two(),
        unicode: classes.unicode,
    }
}

/// The alternate encodings that a configuration declares.
pub open spec fn encodings_of(classes: StructuralClasses, depth: DecodeDepth) -> Encodings {
    Encodings {
        overlong_slash: classes.overlong_slash,
        overlong_dot: classes.overlong_dot,
        double_decode: depth == DecodeDepth::UpToTwo,
        unicode: classes.unicode,
    }
}

/// The most consequential class of a set, in the fixed order dot-segment, truncation,
/// separator, parameter, backslash, case.
pub open spec fn foremost(present: ClassSet) -> StructuralClass {
    if present.dot_segment {
        StructuralClass::DotSegment
    } else if present.truncation {
        StructuralClass::NulTruncation
    } else if present.separator {
        StructuralClass::Separator
    } else if present.param {
        StructuralClass::MatrixParam
    } else if present.backslash {
        StructuralClass::Backslash
    } else {
        StructuralClass::Uppercase
    }
}

/// The class reported for a denying set. More than one class can be present; the most
/// consequential is reported.
pub fn primary_class(present: ClassSet) -> (class: StructuralClass)
    ensures
        class == foremost(present),
{
    if present.dot_segment {
        StructuralClass::DotSegment
    } else if present.truncation {
        StructuralClass::NulTruncation
    } else if present.separator {
        StructuralClass::Separator
    } else if present.param {
        StructuralClass::MatrixParam
    } else if present.backslash {
        StructuralClass::Backslash
    } else {
        StructuralClass::Uppercase
    }
}

/// Nothing has been read yet.
proof fn lemma_scan_begins(s: Scene, l: Lens, seg: DotSegment, r: ScanResult)
    requires
        seg.bare_len == 0 && seg.bare_dots == 0 && !seg.in_param && !seg.alternate_dot && seg.start
            == 0,
        s.bytes.len() > 0 ==> s.sources[0] == 0,
        forall|class: StructuralClass| !(#[trigger] r.classes.has(class)),
        r.earliest is None,
        r.dot_pops == 0,
    ensures
        open_segment(s, l, 0, 0, 0, seg),
        describes_to(r, s, l, 0),
        !follows_slash(s.bytes, l.enc, 0),
{
    reveal(open_segment);
    reveal(describes_to);
    assert forall|a: int, b: int| b < 0 implies !(#[trigger] segment(s, l, a, b)) by {
        if segment(s, l, a, b) {
            lemma_begin_is_start(s, l, a);
        }
    }
    assert forall|p: int| #[trigger] starts_at(s.bytes, l.enc, p) implies p + width_at(
        s.bytes,
        l.enc,
        p,
    ) > 0 by {
        lemma_next_start(s.bytes, l.enc, p);
    }
}

/// The open segment is the one that a separator closes.
proof fn lemma_closing(s: Scene, l: Lens, a: int, e: int, i: int, seg: DotSegment)
    requires
        open_segment(s, l, a, e, i, seg),
        separates(s, l, i),
    ensures
        segment(s, l, a, i),
        closing_dots(s, l, i) <==> dots_only(s, l, a, i),
        closing_dots(s, l, i) ==> (choose|x: int| #[trigger]
            segment(s, l, x, i) && dots_only(s, l, x, i)) == a,
        dots_only(s, l, a, i) ==> seg.start == s.sources[a],
{
    reveal(open_segment);
    assert(segment(s, l, a, i));
    if closing_dots(s, l, i) {
        let x = choose|x: int| #[trigger] segment(s, l, x, i) && dots_only(s, l, x, i);
        lemma_one_beginning(s, l, x, a, i);
    }
}

/// The open segment is the one that the end of the path closes.
proof fn lemma_last_closing(s: Scene, l: Lens, a: int, e: int, seg: DotSegment)
    requires
        open_segment(s, l, a, e, s.bytes.len() as int, seg),
    ensures
        segment(s, l, a, s.bytes.len() as int),
        dots_only(s, l, a, s.bytes.len() as int) ==> seg.start == s.sources[a],
{
    reveal(open_segment);
}

/// What the last segment adds to the description.
proof fn lemma_described_end(r0: ScanResult, r: ScanResult, s: Scene, l: Lens, a: int, start: usize)
    requires
        describes_to(r0, s, l, s.bytes.len() as int),
        segment(s, l, a, s.bytes.len() as int),
        dots_only(s, l, a, s.bytes.len() as int) ==> start == s.sources[a],
        forall|class: StructuralClass| #[trigger]
            r.classes.has(class) <==> r0.classes.has(class) || (class == StructuralClass::DotSegment
                && dots_only(s, l, a, s.bytes.len() as int)),
        r.earliest == if dots_only(s, l, a, s.bytes.len() as int) && l.enabled.dot_segment {
            first_of(r0.earliest, Some(start))
        } else {
            r0.earliest
        },
        r.dot_pops == climb_count(s, l, s.bytes.len() + 1),
    ensures
        describes_to(r, s, l, (s.bytes.len() + 1) as int),
{
    reveal(describes_to);
    let len = s.bytes.len() as int;
    let dots = dots_only(s, l, a, len);
    assert forall|class: StructuralClass| #[trigger] carries_to(s, l, len + 1, class)
        <==> carries_to(s, l, len, class) || (class == StructuralClass::DotSegment && dots) by {
        if carries_to(s, l, len + 1, class) && !(exists|i: int|
            i < len && #[trigger] starts_at(s.bytes, l.enc, i) && class_at(s, l.enc, i) == Some(
                class,
            )) {
            let (x, y) = choose|x: int, y: int|
                y < len + 1 && #[trigger] segment(s, l, x, y) && dots_only(s, l, x, y);
            if y == len {
                lemma_one_beginning(s, l, x, a, len);
            }
        }
    }
    assert forall|o: int| #[trigger] occurs_to(s, l, len + 1, o) <==> occurs_to(s, l, len, o) || (
    l.enabled.dot_segment && dots && s.sources[a] == o) by {
        if occurs_to(s, l, len + 1, o) && !(exists|i: int|
            i < len && #[trigger] starts_at(s.bytes, l.enc, i) && token_at(s, l, i, o)) {
            let (x, y) = choose|x: int, y: int|
                y < len + 1 && #[trigger] segment(s, l, x, y) && dots_only(s, l, x, y)
                    && s.sources[x] == o;
            if y == len {
                lemma_one_beginning(s, l, x, a, len);
            }
        }
    }
    assert forall|class: StructuralClass| #[trigger] r.classes.has(class) <==> carries_to(
        s,
        l,
        len + 1,
        class,
    ) by {
        assert(r0.classes.has(class) <==> carries_to(s, l, len, class));
    }
    assert forall|x: int| #[trigger] occurs_to(s, l, len + 1, x) implies r.earliest is Some
        && r.earliest->Some_0 <= x by {
        assert(occurs_to(s, l, len, x) || (l.enabled.dot_segment && dots && s.sources[a] == x));
    }
    if r.earliest is Some {
        let o = r.earliest->Some_0 as int;
        assert(occurs_to(s, l, len, o) || (l.enabled.dot_segment && dots && s.sources[a] == o));
        assert(occurs_to(s, l, len + 1, o));
    }
}

} // verus!
