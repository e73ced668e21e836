//! What the scanner finds, said of the bytes of a path alone.

use vstd::prelude::*;

use crate::agreement_laws;
use crate::config::{GuardConfig, StructuralClass};
use crate::percent;
use crate::rewriting;
use crate::scan_laws;
use crate::structural;
use crate::structural::{Encodings, Lens, Scene};

verus! {

broadcast use {
    rewriting::lemma_escaped,
    rewriting::lemma_decoded,
    rewriting::lemma_decoded_times,
    rewriting::lemma_spelling,
    rewriting::lemma_lowercased,
};

/// Whether the bytes from `a` up to `e` are all that stands between two slashes, or between
/// a slash and an end of the path, and read `.` or `..`.
pub open spec fn dot_name(b: Seq<u8>, a: int, e: int) -> bool {
    &&& 0 <= a < e <= b.len()
    &&& a == 0 || b[a - 1] == '/' as u8
    &&& e == b.len() || b[e] == '/' as u8
    &&& b[a] == '.' as u8
    &&& e == a + 1 || (e == a + 2 && b[a + 1] == '.' as u8)
}

/// Whether nothing about the bytes is structural but single slashes: no NUL, no `;`, no `\`
/// where it separates, no `//`, no `.` or `..` between slashes, and no declared spelling of
/// one of these in another form.
pub open spec fn plain(b: Seq<u8>, backslash: bool, enc: Encodings) -> bool {
    &&& forall|i: int|
        0 <= i < b.len() ==> {
            &&& #[trigger] b[i] != 0
            &&& b[i] != ';' as u8
            &&& !(backslash && b[i] == '\\' as u8)
        }
    &&& forall|i: int|
        0 < i < b.len() ==> !(b[i - 1] == '/' as u8 && #[trigger] b[i] == '/' as u8)
    &&& forall|a: int, e: int| !(#[trigger] dot_name(b, a, e))
    &&& forall|at: int, c: u8, width: int| #[trigger]
        rewriting::spells(b, enc, at, c, width) ==> c == '\\' as u8 && !backslash
}

/// Whether the bytes hold no uppercase ASCII letter.
pub open spec fn uncapitalized(b: Seq<u8>) -> bool {
    forall|i: int| 0 <= i < b.len() ==> !('A' as u8 <= #[trigger] b[i] <= 'Z' as u8)
}

/// Whether no slash and no dot of the interpretation stems from an escape.
spec fn literal_marks(s: Scene) -> bool {
    forall|i: int|
        0 <= i < s.bytes.len() && (#[trigger] s.bytes[i] == 0x2F || s.bytes[i] == 0x2E)
            ==> !s.escaped[i]
}

/// Whether the interpretation carries no enabled class.
spec fn carries_nothing(s: Scene, l: Lens) -> bool {
    forall|class: StructuralClass|
        l.enabled.has(class) ==> !(#[trigger] structural::carries(s, l, class))
}

/// The always-on classes are enabled.
spec fn full(l: Lens) -> bool {
    l.enabled.separator && l.enabled.dot_segment && l.enabled.param && l.enabled.truncation
}

/// An interpretation that is plain carries nothing.
proof fn lemma_plain_is_silent(s: Scene, l: Lens)
    requires
        full(l),
        s.escaped.len() == s.bytes.len(),
        plain(s.bytes, l.enabled.backslash, l.enc),
        literal_marks(s),
        l.enabled.case ==> uncapitalized(s.bytes),
    ensures
        carries_nothing(s, l),
{
    let b = s.bytes;
    let enc = l.enc;
    let bs = l.enabled.backslash;
    assert forall|i: int| structural::form_at(b, enc, i) is Some implies (structural::form_at(
        b,
        enc,
        i,
    )->Some_0).0 == 0x5C && !bs by {
        let (c, w) = structural::form_at(b, enc, i)->Some_0;
        assert(rewriting::spelling(b, enc, i) == Some((c, w)));
        assert(rewriting::spells(b, enc, i, c, w));
    }
    assert forall|class: StructuralClass| l.enabled.has(class) implies !(
    #[trigger] structural::carries(s, l, class)) by {
        if exists|i: int| #[trigger]
            structural::starts_at(b, enc, i) && structural::class_at(s, enc, i) == Some(class) {
            let i = choose|i: int| #[trigger]
                structural::starts_at(b, enc, i) && structural::class_at(s, enc, i) == Some(class);
            if structural::form_at(b, enc, i) is Some {
                assert(structural::face_at(b, enc, i) == 0x5C);
            } else {
                assert(structural::face_at(b, enc, i) == b[i]);
                if b[i] == 0x2F {
                    assert(!s.escaped[i]);
                    assert(structural::follows_slash(b, enc, i));
                    let p = choose|p: int| #[trigger]
                        structural::starts_at(b, enc, p) && p + structural::width_at(b, enc, p)
                            == i && structural::face_at(b, enc, p) == 0x2F;
                    assert(structural::form_at(b, enc, p) is None);
                    assert(b[p] == 0x2F && b[i - 1] == 0x2F);
                }
                if b[i] == 0x2E {
                    assert(!s.escaped[i]);
                }
            }
        }
        if class == StructuralClass::DotSegment && exists|a: int, e: int| #[trigger]
            structural::segment(s, l, a, e) && structural::dots_only(s, l, a, e) {
            let (a, e) = choose|a: int, e: int| #[trigger]
                structural::segment(s, l, a, e) && structural::dots_only(s, l, a, e);
            lemma_dots_are_named(s, l, a, e);
        }
    }
}

/// A dot-segment of a plain interpretation stands between slashes.
proof fn lemma_dots_are_named(s: Scene, l: Lens, a: int, e: int)
    requires
        full(l),
        forall|i: int|
            structural::form_at(s.bytes, l.enc, i) is Some ==> (#[trigger] structural::form_at(
                s.bytes,
                l.enc,
                i,
            )->Some_0).0 == 0x5C && !l.enabled.backslash,
        forall|i: int|
            0 <= i < s.bytes.len() ==> #[trigger] s.bytes[i] != 0x3B && !(l.enabled.backslash
                && s.bytes[i] == 0x5C),
        structural::segment(s, l, a, e),
        structural::dots_only(s, l, a, e),
    ensures
        dot_name(s.bytes, a, e),
{
    let b = s.bytes;
    let enc = l.enc;
    structural::lemma_begin_is_start(s, l, a);
    assert(structural::form_at(b, enc, a) is None);
    if a != 0 {
        let p = choose|p: int| #[trigger]
            structural::separates(s, l, p) && p + structural::width_at(b, enc, p) == a;
        assert(structural::form_at(b, enc, p) is None);
    }
    if e < b.len() {
        assert(structural::separates(s, l, e));
        assert(structural::form_at(b, enc, e) is None);
    }
    let m = a + 1;
    if m < e && structural::face_at(b, enc, m) == 0x2E {
        assert(structural::form_at(b, enc, m) is None);
        if m + 1 < e {
            assert(structural::face_at(b, enc, m + 1) != 0x3B) by {
                assert(0 <= m + 1 < b.len());
            }
        }
    } else if m < e {
        assert(structural::face_at(b, enc, m) != 0x3B);
    }
}

/// An interpretation that carries nothing is plain.
proof fn lemma_silent_is_plain(s: Scene, l: Lens)
    requires
        full(l),
        s.escaped.len() == s.bytes.len(),
        carries_nothing(s, l),
    ensures
        plain(s.bytes, l.enabled.backslash, l.enc),
        literal_marks(s),
        l.enabled.case ==> uncapitalized(s.bytes),
{
    let b = s.bytes;
    let enc = l.enc;
    assert forall|i: int|
        0 <= i < b.len() && b[i] < 0x80 && structural::class_at(s, enc, i) is Some implies !(
    #[trigger] l.enabled.has(structural::class_at(s, enc, i)->Some_0)) by {
        agreement_laws::lemma_starts(b, enc, i);
        let class = structural::class_at(s, enc, i)->Some_0;
        assert(structural::starts_at(b, enc, i));
        assert(structural::carries(s, l, class));
    }
    assert forall|i: int| 0 <= i < b.len() && (#[trigger] b[i] == 0x2F || b[i] == 0x2E) implies !s.escaped[i] by {
        agreement_laws::lemma_starts(b, enc, i);
        if s.escaped[i] {
            assert(l.enabled.has(structural::class_at(s, enc, i)->Some_0));
        }
    }
    assert forall|i: int| 0 <= i < b.len() implies {
        &&& #[trigger] b[i] != 0
        &&& b[i] != 0x3B
        &&& !(l.enabled.backslash && b[i] == 0x5C)
    } by {
        if b[i] == 0 || b[i] == 0x3B || (l.enabled.backslash && b[i] == 0x5C) {
            agreement_laws::lemma_starts(b, enc, i);
            assert(l.enabled.has(structural::class_at(s, enc, i)->Some_0));
        }
    }
    assert forall|i: int| 0 < i < b.len() implies !(b[i - 1] == 0x2F && #[trigger] b[i] == 0x2F) by {
        if b[i - 1] == 0x2F && b[i] == 0x2F {
            agreement_laws::lemma_doubled(s, enc, i);
            assert(l.enabled.has(structural::class_at(s, enc, i)->Some_0));
        }
    }
    assert forall|a: int, e: int| !(#[trigger] dot_name(b, a, e)) by {
        if dot_name(b, a, e) {
            lemma_named_are_dots(s, l, a, e);
            assert(structural::carries(s, l, StructuralClass::DotSegment));
        }
    }
    assert forall|at: int, c: u8, width: int| #[trigger]
        rewriting::spells(b, enc, at, c, width) implies c == 0x5C && !l.enabled.backslash by {
        assert(rewriting::spelling(b, enc, at) is Some);
        rewriting::lemma_spells(b, enc, at, c, width);
        agreement_laws::lemma_starts(b, enc, at);
        if !(c == 0x5C && !l.enabled.backslash) {
            let class = structural::class_at(s, enc, at)->Some_0;
            assert(structural::coded_at(s, enc, at));
            assert(structural::carries(s, l, class));
        }
    }
    if l.enabled.case {
        assert forall|i: int| 0 <= i < b.len() implies !(0x41 <= #[trigger] b[i] <= 0x5A) by {
            if 0x41 <= b[i] <= 0x5A {
                agreement_laws::lemma_starts(b, enc, i);
                assert(l.enabled.has(structural::class_at(s, enc, i)->Some_0));
            }
        }
    }
}

/// A dot-segment between slashes is one to the scanner.
proof fn lemma_named_are_dots(s: Scene, l: Lens, a: int, e: int)
    requires
        full(l),
        s.escaped.len() == s.bytes.len(),
        dot_name(s.bytes, a, e),
    ensures
        structural::segment(s, l, a, e),
        structural::dots_only(s, l, a, e),
{
    let bytes = s.bytes;
    if a > 0 {
        agreement_laws::lemma_starts(bytes, l.enc, a - 1);
        assert(structural::separates(s, l, a - 1));
    }
    agreement_laws::lemma_starts(bytes, l.enc, a);
    assert(structural::begins(s, l, a));
    if e < bytes.len() {
        agreement_laws::lemma_starts(bytes, l.enc, e);
        assert(structural::separates(s, l, e));
    }
    if e == a + 2 {
        agreement_laws::lemma_starts(bytes, l.enc, a + 1);
    }
    assert forall|j: int| a <= j < e implies !(#[trigger] structural::separates(s, l, j)) by {
        assert(j == a || j == a + 1);
    }
}

/// Where a byte of an interpretation stems from an escape, it is a `%` or an escape of it was
/// read in some pass.
pub proof fn lemma_escape_origin(path: Seq<u8>, n: nat, i: int) -> (at: (nat, int))
    requires
        0 <= i < percent::reading(path, n).bytes.len(),
        path[percent::reading(path, n).sources[i]] == 0x25,
        percent::reading(path, n).bytes[i] != 0x25,
    ensures
        at.0 < n,
        percent::escape_at(percent::decode_times(path, at.0), at.1) == Some(
            percent::reading(path, n).bytes[i],
        ),
    decreases n,
{
    if n == 0 {
        (0, 0)
    } else {
        let m = (n - 1) as nat;
        let before = percent::reading(path, m);
        percent::lemma_reading(path, m);
        percent::lemma_offsets(before.bytes, 0);
        let o = percent::decode_offsets(before.bytes, 0)[i];
        percent::lemma_offset_origin(before.bytes, 0, i);
        if percent::escape_at(before.bytes, o) == Some(percent::reading(path, n).bytes[i]) {
            (m, o)
        } else {
            lemma_escape_origin(path, m, o)
        }
    }
}

/// Whether nothing about the path is structural but single slashes, however many of the decode
/// passes are made, and no pass reads a slash or a dot from an escape.
pub open spec fn quiet(path: Seq<u8>, passes: nat, backslash: bool, enc: Encodings) -> bool {
    &&& forall|n: nat|
        n <= passes ==> plain(#[trigger] rewriting::decoded_times(path, n), backslash, enc)
    &&& forall|n: nat, at: int|
        n < passes ==> !(#[trigger] rewriting::escapes(
            rewriting::decoded_times(path, n),
            at,
            '/' as u8,
        ))
    &&& forall|n: nat, at: int|
        n < passes ==> !(#[trigger] rewriting::escapes(
            rewriting::decoded_times(path, n),
            at,
            '.' as u8,
        ))
}

/// Whether no decode result holds an uppercase letter.
pub open spec fn quiet_case(path: Seq<u8>, passes: nat) -> bool {
    forall|n: nat| n <= passes ==> uncapitalized(#[trigger] rewriting::decoded_times(path, n))
}

/// What is quiet carries nothing in any interpretation.
proof fn lemma_quiet_scene(path: Seq<u8>, l: Lens, n: nat)
    requires
        full(l),
        quiet(
            path,
            percent::pass_limit(l.enc.double_decode),
            l.enabled.backslash,
            l.enc,
        ),
        l.enabled.case ==> quiet_case(path, percent::pass_limit(l.enc.double_decode)),
        n <= structural::last_pass(path, l.enc),
    ensures
        carries_nothing(structural::scene(path, n), l),
{
    let limit = percent::pass_limit(l.enc.double_decode);
    let s = structural::scene(path, n);
    lemma_effective_bound(path, limit);
    percent::lemma_reading(path, n);
    assert(rewriting::decoded_times(path, n) == s.bytes);
    assert forall|i: int|
        0 <= i < s.bytes.len() && (#[trigger] s.bytes[i] == 0x2F || s.bytes[i] == 0x2E) implies !s.escaped[i] by {
        if s.escaped[i] {
            let (m, at) = lemma_escape_origin(path, n, i);
            rewriting::lemma_escapes(rewriting::decoded_times(path, m), at, s.bytes[i]);
            assert(rewriting::escapes(rewriting::decoded_times(path, m), at, s.bytes[i]));
        }
    }
    lemma_plain_is_silent(s, l);
}

pub proof fn lemma_effective_bound(s: Seq<u8>, limit: nat)
    ensures
        percent::effective_passes(s, limit) <= limit,
    decreases limit,
{
    if limit > 0 && percent::has_escape(s) {
        lemma_effective_bound(percent::decode(s), (limit - 1) as nat);
    }
}

/// What carries nothing in any interpretation is quiet.
proof fn lemma_silence_is_quiet(path: Seq<u8>, l: Lens)
    requires
        full(l),
        forall|n: nat|
            n <= structural::last_pass(path, l.enc) ==> #[trigger] carries_nothing(
                structural::scene(path, n),
                l,
            ),
    ensures
        quiet(
            path,
            percent::pass_limit(l.enc.double_decode),
            l.enabled.backslash,
            l.enc,
        ),
        l.enabled.case ==> quiet_case(path, percent::pass_limit(l.enc.double_decode)),
{
    let limit = percent::pass_limit(l.enc.double_decode);
    assert forall|n: nat| n <= limit implies plain(
        #[trigger] rewriting::decoded_times(path, n),
        l.enabled.backslash,
        l.enc,
    ) && (l.enabled.case ==> uncapitalized(rewriting::decoded_times(path, n))) by {
        let m = agreement_laws::lemma_settled(path, limit, n);
        let s = structural::scene(path, m);
        percent::lemma_reading(path, m);
        assert(carries_nothing(s, l));
        lemma_silent_is_plain(s, l);
    }
    assert forall|n: nat, at: int, b: u8|
        n < limit && (b == 0x2F || b == 0x2E) implies !(#[trigger] rewriting::escapes(
        rewriting::decoded_times(path, n),
        at,
        b,
    )) by {
        let d = percent::decode_times(path, n);
        rewriting::lemma_escapes(d, at, b);
        if rewriting::escapes(d, at, b) {
            assert(percent::escape_at(d, at) is Some);
            agreement_laws::lemma_pass_counts(path, limit, n);
            let s = structural::scene(path, n + 1);
            percent::lemma_reading(path, n);
            percent::lemma_reading(path, n + 1);
            let i = agreement_laws::lemma_escape_place(d, 0, at);
            agreement_laws::lemma_percent_origin(path, n, at);
            percent::lemma_offsets(d, 0);
            assert(s.bytes[i] == b && s.escaped[i]);
            assert(carries_nothing(s, l));
            lemma_silent_is_plain(s, l);
        }
    }
}

/// The scanner finds an enabled structural form exactly where one is: the survey of a path is
/// void if and only if the path is quiet, and holds no uppercase letter where those count.
pub proof fn survey_is_exact(path: Seq<u8>, l: Lens)
    requires
        path.len() < usize::MAX,
        l.enabled.separator && l.enabled.dot_segment && l.enabled.param && l.enabled.truncation,
    ensures
        structural::survey(path, l).classes.meet(l.enabled).is_void() <==> quiet(
            path,
            if l.enc.double_decode {
                2
            } else {
                1
            },
            l.enabled.backslash,
            l.enc,
        ) && (l.enabled.case ==> quiet_case(
            path,
            if l.enc.double_decode {
                2
            } else {
                1
            },
        )),
{
    scan_laws::every_path_has_a_survey(path, l);
    let found = structural::survey(path, l);
    let limit = percent::pass_limit(l.enc.double_decode);
    if found.classes.meet(l.enabled).is_void() {
        assert forall|n: nat| n <= structural::last_pass(path, l.enc) implies #[trigger] carries_nothing(
            structural::scene(path, n),
            l,
        ) by {
            assert forall|class: StructuralClass| l.enabled.has(class) implies !(
            #[trigger] structural::carries(structural::scene(path, n), l, class)) by {
                assert(!found.classes.meet(l.enabled).has(class));
                assert(!found.classes.has(class));
            }
        }
        lemma_silence_is_quiet(path, l);
    }
    if quiet(path, limit, l.enabled.backslash, l.enc) && (l.enabled.case ==> quiet_case(path, limit)) {
        assert forall|class: StructuralClass| !(#[trigger] found.classes.meet(l.enabled).has(class)) by {
            if found.classes.has(class) && l.enabled.has(class) {
                let n = choose|n: nat|
                    n <= structural::last_pass(path, l.enc) && #[trigger] structural::carries(
                        structural::scene(path, n),
                        l,
                        class,
                    );
                lemma_quiet_scene(path, l, n);
            }
        }
    }
}

/// The scanner reports a NUL exactly where a declared number of decode passes shows one.
pub proof fn nul_is_exact(path: Seq<u8>, l: Lens)
    requires
        path.len() < usize::MAX,
        l.enabled.truncation,
    ensures
        structural::survey(path, l).classes.meet(l.enabled).truncation <==> exists|n: nat|
            n <= (if l.enc.double_decode {
                2nat
            } else {
                1nat
            }) && (#[trigger] rewriting::decoded_times(path, n)).contains(0),
{
    scan_laws::every_path_has_a_survey(path, l);
    let found = structural::survey(path, l);
    let limit = percent::pass_limit(l.enc.double_decode);
    let class = StructuralClass::NulTruncation;
    if found.classes.truncation {
        assert(found.classes.has(class));
        let n = choose|n: nat|
            n <= structural::last_pass(path, l.enc) && #[trigger] structural::carries(
                structural::scene(path, n),
                l,
                class,
            );
        lemma_effective_bound(path, limit);
        let s = structural::scene(path, n);
        percent::lemma_reading(path, n);
        let i = choose|i: int| #[trigger]
            structural::starts_at(s.bytes, l.enc, i) && structural::class_at(s, l.enc, i) == Some(
                class,
            );
        assert(structural::face_at(s.bytes, l.enc, i) == 0);
        assert(structural::form_at(s.bytes, l.enc, i) is None);
        assert(rewriting::decoded_times(path, n)[i] == 0);
    }
    if exists|n: nat| n <= limit && (#[trigger] rewriting::decoded_times(path, n)).contains(0) {
        let n = choose|n: nat|
            n <= limit && (#[trigger] rewriting::decoded_times(path, n)).contains(0);
        let m = agreement_laws::lemma_settled(path, limit, n);
        let s = structural::scene(path, m);
        percent::lemma_reading(path, m);
        let i = s.bytes.index_of(0);
        agreement_laws::lemma_starts(s.bytes, l.enc, i);
        assert(structural::starts_at(s.bytes, l.enc, i));
        assert(structural::class_at(s, l.enc, i) == Some(class));
        assert(structural::carries(s, l, class));
        assert(found.classes.has(class));
    }
}

/// The classes in the order in which they are reported.
pub open spec fn reporting_order() -> Seq<StructuralClass> {
    seq![
        StructuralClass::DotSegment,
        StructuralClass::NulTruncation,
        StructuralClass::Separator,
        StructuralClass::MatrixParam,
        StructuralClass::Backslash,
        StructuralClass::Uppercase,
    ]
}

/// Of several classes, the one that comes first in the order is reported.
pub proof fn first_class_is_reported(present: structural::ClassSet, i: int)
    requires
        0 <= i < reporting_order().len(),
        present.has(reporting_order()[i]),
        forall|j: int| 0 <= j < i ==> !present.has(#[trigger] reporting_order()[j]),
    ensures
        structural::foremost(present) == reporting_order()[i],
{
    let order = reporting_order();
    assert(i == 0 || i == 1 || i == 2 || i == 3 || i == 4 || i == 5);
    assert(order[0] == StructuralClass::DotSegment);
    assert(order[1] == StructuralClass::NulTruncation);
    assert(order[2] == StructuralClass::Separator);
    assert(order[3] == StructuralClass::MatrixParam);
    assert(order[4] == StructuralClass::Backslash);
    assert(order[5] == StructuralClass::Uppercase);
}

/// Whether a segment that is `.` or `..`, not counting what follows a `;`, goes from `a` up to
/// `e`, where slashes separate, and backslashes if they do.
pub open spec fn dot_segment(b: Seq<u8>, backslash: bool, a: int, e: int) -> bool {
    &&& 0 <= a < e <= b.len()
    &&& a == 0 || separator(b[a - 1], backslash)
    &&& e == b.len() || separator(b[e], backslash)
    &&& forall|i: int| a <= i < e ==> !separator(#[trigger] b[i], backslash)
    &&& b[a] == '.' as u8
    &&& {
        ||| e == a + 1 || b[a + 1] == ';' as u8
        ||| b[a + 1] == '.' as u8 && (e == a + 2 || b[a + 2] == ';' as u8)
    }
}

pub open spec fn separator(b: u8, backslash: bool) -> bool {
    b == '/' as u8 || (backslash && b == '\\' as u8)
}

/// Whether the bytes show the class as they are written.
pub open spec fn shows(b: Seq<u8>, backslash: bool, class: StructuralClass) -> bool {
    match class {
        StructuralClass::DotSegment => exists|a: int, e: int| #[trigger]
            dot_segment(b, backslash, a, e),
        StructuralClass::NulTruncation => b.contains(0),
        StructuralClass::Separator => exists|i: int|
            0 < i < b.len() && b[i - 1] == '/' as u8 && #[trigger] b[i] == '/' as u8,
        StructuralClass::MatrixParam => b.contains(';' as u8),
        StructuralClass::Backslash => b.contains('\\' as u8),
        StructuralClass::Uppercase => !uncapitalized(b),
    }
}

/// In a path without escapes and alternate spellings, the scanner finds each class exactly where
/// the bytes show it.
pub proof fn classes_are_exact(path: Seq<u8>, l: Lens, class: StructuralClass)
    requires
        path.len() < usize::MAX,
        l.enabled.separator && l.enabled.dot_segment && l.enabled.param && l.enabled.truncation,
        forall|at: int, b: u8| !rewriting::escapes(path, at, b),
        forall|at: int, c: u8, width: int| !(#[trigger] rewriting::spells(
            path,
            l.enc,
            at,
            c,
            width,
        )),
    ensures
        structural::survey(path, l).classes.has(class) <==> shows(
            path,
            l.enabled.backslash,
            class,
        ),
{
    scan_laws::every_path_has_a_survey(path, l);
    let found = structural::survey(path, l);
    assert(!percent::has_escape(path)) by {
        if percent::has_escape(path) {
            let at = choose|at: int| 0 <= at < path.len() && percent::escape_at(path, at) is Some;
            rewriting::lemma_escapes(path, at, percent::escape_at(path, at)->Some_0);
        }
    }
    assert(structural::last_pass(path, l.enc) == 0);
    let s = structural::scene(path, 0);
    assert(s.bytes == path);
    assert forall|i: int| (#[trigger] structural::form_at(path, l.enc, i)) is None by {
        if let Some((c, w)) = structural::form_at(path, l.enc, i) {
            rewriting::lemma_spelling(path, l.enc, i);
            assert(rewriting::spells(path, l.enc, i, c, w));
        }
    }
    assert(found.classes.has(class) <==> structural::carries(s, l, class)) by {
        if structural::carries(structural::scene(path, 0), l, class) {
            assert(found.classes.has(class));
        }
    }
    lemma_shown(s, l, class);
}

/// Where characters are bytes, a class is carried where the bytes show it.
proof fn lemma_shown(s: Scene, l: Lens, class: StructuralClass)
    requires
        full(l),
        s.escaped.len() == s.bytes.len(),
        forall|i: int| 0 <= i < s.escaped.len() ==> !(#[trigger] s.escaped[i]),
        forall|i: int| (#[trigger] structural::form_at(s.bytes, l.enc, i)) is None,
    ensures
        structural::carries(s, l, class) <==> shows(s.bytes, l.enabled.backslash, class),
{
    let b = s.bytes;
    let enc = l.enc;
    assert forall|i: int| 0 <= i < b.len() implies #[trigger] structural::starts_at(b, enc, i) by {}
    assert forall|i: int| 0 <= i < b.len() implies structural::face_at(b, enc, i) == b[i]
        && !structural::coded_at(s, enc, i) by {}
    assert forall|i: int| 0 <= i < b.len() implies (#[trigger] structural::follows_slash(b, enc, i)
        <==> i > 0 && b[i - 1] == 0x2F) by {
        if i > 0 && b[i - 1] == 0x2F {
            assert(structural::starts_at(b, enc, i - 1));
        }
    }
    assert forall|i: int| #[trigger]
        structural::separates(s, l, i) <==> 0 <= i < b.len() && separator(
            b[i],
            l.enabled.backslash,
        ) by {
        if 0 <= i < b.len() {
            assert(structural::starts_at(b, enc, i));
        }
    }
    assert forall|a: int| #[trigger]
        structural::begins(s, l, a) <==> a == 0 || (0 < a <= b.len() && separator(
            b[a - 1],
            l.enabled.backslash,
        )) by {
        if 0 < a <= b.len() && separator(b[a - 1], l.enabled.backslash) {
            assert(structural::separates(s, l, a - 1));
        }
    }
    if structural::carries(s, l, class) {
        if exists|i: int| #[trigger]
            structural::starts_at(b, enc, i) && structural::class_at(s, enc, i) == Some(class) {
            let i = choose|i: int| #[trigger]
                structural::starts_at(b, enc, i) && structural::class_at(s, enc, i) == Some(class);
            assert(structural::face_at(b, enc, i) == b[i]);
            assert(structural::follows_slash(b, enc, i) <==> i > 0 && b[i - 1] == 0x2F);
            assert(b.contains(b[i]));
        } else {
            let (a, e) = choose|a: int, e: int| #[trigger]
                structural::segment(s, l, a, e) && structural::dots_only(s, l, a, e);
            lemma_dot_segment_iff(s, l, a, e);
        }
    }
    if shows(b, l.enabled.backslash, class) {
        match class {
            StructuralClass::DotSegment => {
                let (a, e) = choose|a: int, e: int| #[trigger]
                    dot_segment(b, l.enabled.backslash, a, e);
                lemma_dot_segment_iff(s, l, a, e);
            },
            StructuralClass::NulTruncation => {
                let i = b.index_of(0);
                assert(structural::starts_at(b, enc, i));
                assert(structural::face_at(b, enc, i) == b[i]);
            },
            StructuralClass::Separator => {
                let i = choose|i: int| 0 < i < b.len() && b[i - 1] == 0x2F && #[trigger] b[i] == 0x2F;
                assert(structural::starts_at(b, enc, i));
                assert(structural::follows_slash(b, enc, i));
                assert(structural::face_at(b, enc, i) == b[i]);
            },
            StructuralClass::MatrixParam => {
                let i = b.index_of(0x3B);
                assert(structural::starts_at(b, enc, i));
                assert(structural::face_at(b, enc, i) == b[i]);
            },
            StructuralClass::Backslash => {
                let i = b.index_of(0x5C);
                assert(structural::starts_at(b, enc, i));
                assert(structural::face_at(b, enc, i) == b[i]);
            },
            StructuralClass::Uppercase => {
                let i = choose|i: int| 0 <= i < b.len() && 0x41 <= #[trigger] b[i] <= 0x5A;
                assert(structural::starts_at(b, enc, i));
                assert(structural::face_at(b, enc, i) == b[i]);
            },
        }
    }
}

/// Where characters are bytes, the scanner's dot-segments are those of the bytes.
pub proof fn lemma_dot_segment_iff(s: Scene, l: Lens, a: int, e: int)
    requires
        l.enabled.separator && l.enabled.dot_segment && l.enabled.param && l.enabled.truncation,
        s.escaped.len() == s.bytes.len(),
        forall|i: int| 0 <= i < s.escaped.len() ==> !(#[trigger] s.escaped[i]),
        forall|i: int| (#[trigger] structural::form_at(s.bytes, l.enc, i)) is None,
    ensures
        structural::segment(s, l, a, e) && structural::dots_only(s, l, a, e) <==> dot_segment(
            s.bytes,
            l.enabled.backslash,
            a,
            e,
        ),
{
    let b = s.bytes;
    let enc = l.enc;
    assert forall|i: int| 0 <= i < b.len() implies #[trigger] structural::starts_at(b, enc, i) by {}
    assert forall|i: int| #[trigger]
        structural::separates(s, l, i) <==> 0 <= i < b.len() && separator(
            b[i],
            l.enabled.backslash,
        ) by {
        if 0 <= i < b.len() {
            assert(structural::starts_at(b, enc, i));
        }
    }
    assert(structural::begins(s, l, a) <==> a == 0 || (0 < a <= b.len() && separator(
        b[a - 1],
        l.enabled.backslash,
    ))) by {
        if 0 < a <= b.len() && separator(b[a - 1], l.enabled.backslash) {
            assert(structural::separates(s, l, a - 1));
        }
    }
    assert(forall|i: int| 0 <= i < b.len() ==> structural::face_at(b, enc, i) == b[i]);
    if dot_segment(b, l.enabled.backslash, a, e) {
        assert(!separator(b[a], l.enabled.backslash));
        if e < b.len() {
            assert(structural::separates(s, l, e));
        }
    }
    if structural::segment(s, l, a, e) && structural::dots_only(s, l, a, e) {
        assert forall|i: int| a <= i < e implies !separator(#[trigger] b[i], l.enabled.backslash) by {
            assert(!structural::separates(s, l, i));
        }
        if e < b.len() {
            assert(structural::separates(s, l, e));
        }
    }
}

/// How many dot-segments end before `n`.
pub open spec fn dot_count(b: Seq<u8>, backslash: bool, n: nat) -> nat
    decreases n,
{
    if n == 0 {
        0
    } else {
        dot_count(b, backslash, (n - 1) as nat) + if exists|a: int| #[trigger]
            dot_segment(b, backslash, a, n - 1) {
            1nat
        } else {
            0
        }
    }
}

/// In a path without escapes and alternate spellings, the anchor is raised by as many segments
/// as the path has dot-segments.
pub proof fn climbs_are_counted(path: Seq<u8>, l: Lens)
    requires
        path.len() < usize::MAX,
        l.enabled.separator && l.enabled.dot_segment && l.enabled.param && l.enabled.truncation,
        forall|at: int, b: u8| !rewriting::escapes(path, at, b),
        forall|at: int, c: u8, width: int| !(#[trigger] rewriting::spells(
            path,
            l.enc,
            at,
            c,
            width,
        )),
    ensures
        structural::survey(path, l).dot_pops == dot_count(
            path,
            l.enabled.backslash,
            path.len() + 1,
        ),
{
    scan_laws::every_path_has_a_survey(path, l);
    let found = structural::survey(path, l);
    assert(!percent::has_escape(path)) by {
        if percent::has_escape(path) {
            let at = choose|at: int| 0 <= at < path.len() && percent::escape_at(path, at) is Some;
            rewriting::lemma_escapes(path, at, percent::escape_at(path, at)->Some_0);
        }
    }
    assert(structural::last_pass(path, l.enc) == 0);
    let s = structural::scene(path, 0);
    assert(s.bytes == path);
    assert forall|i: int| (#[trigger] structural::form_at(path, l.enc, i)) is None by {
        if let Some((c, w)) = structural::form_at(path, l.enc, i) {
            rewriting::lemma_spelling(path, l.enc, i);
            assert(rewriting::spells(path, l.enc, i, c, w));
        }
    }
    lemma_dot_count(s, l, path.len() + 1);
    let n = choose|n: nat|
        n <= structural::last_pass(path, l.enc) && #[trigger] structural::climbs_in(path, l, n)
            == found.dot_pops;
    assert(n == 0);
}

proof fn lemma_dot_count(s: Scene, l: Lens, n: nat)
    requires
        full(l),
        s.escaped.len() == s.bytes.len(),
        forall|i: int| 0 <= i < s.escaped.len() ==> !(#[trigger] s.escaped[i]),
        forall|i: int| (#[trigger] structural::form_at(s.bytes, l.enc, i)) is None,
    ensures
        structural::climb_count(s, l, n) == dot_count(s.bytes, l.enabled.backslash, n),
    decreases n,
{
    if n > 0 {
        lemma_dot_count(s, l, (n - 1) as nat);
        let e = n - 1;
        if structural::climbs(s, l, e) {
            let a = choose|a: int| #[trigger] structural::may_climb(s, l, a, e);
            lemma_dot_segment_iff(s, l, a, e);
            if structural::coded_dot(s, l, a, e) {
                let j = choose|j: int|
                    a <= j < e && #[trigger] structural::starts_at(s.bytes, l.enc, j)
                        && structural::face_at(s.bytes, l.enc, j) == 0x2E && structural::coded_at(
                        s,
                        l.enc,
                        j,
                    );
                assert(structural::form_at(s.bytes, l.enc, j) is None);
            }
            assert(dot_segment(s.bytes, l.enabled.backslash, a, e));
        }
        if exists|a: int| #[trigger] dot_segment(s.bytes, l.enabled.backslash, a, e) {
            let a = choose|a: int| #[trigger] dot_segment(s.bytes, l.enabled.backslash, a, e);
            lemma_dot_segment_iff(s, l, a, e);
            assert(structural::may_climb(s, l, a, e));
        }
    }
}

/// Where nothing is enabled beyond what always is, no alternate spelling is read, no probe is
/// asked, and a backslash does not separate.
pub proof fn quartet_reads_no_other_spelling(
    config: GuardConfig,
    b: Seq<u8>,
    at: int,
    c: u8,
    width: int,
)
    requires
        config.structural_classes.is_quartet_only(),
    ensures
        !rewriting::spells(b, rewriting::declared(config).enc, at, c, width),
        !rewriting::declared(config).backslash,
        config.structural_classes.probes@.len() == 0,
{
}

} // verus!
