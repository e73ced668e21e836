//! Bounded whole-path percent interpretations, with source offsets.
//!
//! Decoding is independent of structural classes. Every enabled interpretation is
//! scanned and routed, including invalid UTF-8. Source offsets let structural
//! analysis anchor in the original request without mixing buffers.

use vstd::prelude::*;

verus! {

/// The value of one hex digit.
pub open spec fn hex_digit(b: u8) -> Option<u8> {
    if 0x30 <= b <= 0x39 {
        Some((b - 0x30) as u8)
    } else if 0x61 <= b <= 0x66 {
        Some((b - 0x61 + 10) as u8)
    } else if 0x41 <= b <= 0x46 {
        Some((b - 0x41 + 10) as u8)
    } else {
        None
    }
}

/// The byte of the complete `%XX` escape that starts at `s[i]`.
pub open spec fn escape_at(s: Seq<u8>, i: int) -> Option<u8> {
    if 0 <= i && i + 2 < s.len() && s[i] == 0x25 {
        match (hex_digit(s[i + 1]), hex_digit(s[i + 2])) {
            (Some(hi), Some(lo)) => Some((hi * 16 + lo) as u8),
            _ => None,
        }
    } else {
        None
    }
}

/// Whether `s` holds a complete escape anywhere.
pub open spec fn has_escape(s: Seq<u8>) -> bool {
    exists|i: int| 0 <= i < s.len() && (#[trigger] escape_at(s, i)) is Some
}

/// One whole-path decode pass: every complete escape becomes its byte, every other
/// byte (a malformed `%` among them) stays.
pub open spec fn decode(s: Seq<u8>) -> Seq<u8>
    decreases s.len(),
{
    if s.len() == 0 {
        Seq::empty()
    } else {
        match escape_at(s, 0) {
            Some(b) => seq![b] + decode(s.skip(3)),
            None => seq![s[0]] + decode(s.skip(1)),
        }
    }
}

/// For each byte of `decode(s)`, where in `s` it begins, counted from `base`.
pub open spec fn decode_offsets(s: Seq<u8>, base: int) -> Seq<int>
    decreases s.len(),
{
    if s.len() == 0 {
        Seq::empty()
    } else if escape_at(s, 0) is Some {
        seq![base] + decode_offsets(s.skip(3), base + 3)
    } else {
        seq![base] + decode_offsets(s.skip(1), base + 1)
    }
}

/// `n` decode passes.
pub open spec fn decode_times(s: Seq<u8>, n: nat) -> Seq<u8>
    decreases n,
{
    if n == 0 {
        s
    } else {
        decode(decode_times(s, (n - 1) as nat))
    }
}

/// A path as it reads after some number of decode passes: its bytes, and for each
/// byte the offset in the original path that it comes from.
#[verifier::ext_equal]
pub ghost struct Reading {
    pub bytes: Seq<u8>,
    pub sources: Seq<int>,
}

/// The reading of `path` after `n` decode passes.
pub open spec fn reading(path: Seq<u8>, n: nat) -> Reading
    decreases n,
{
    if n == 0 {
        Reading { bytes: path, sources: Seq::new(path.len(), |i: int| i) }
    } else {
        let before = reading(path, (n - 1) as nat);
        Reading {
            bytes: decode(before.bytes),
            sources: decode_offsets(before.bytes, 0).map_values(|o: int| before.sources[o]),
        }
    }
}

/// How many of at most `limit` decode passes change anything.
pub open spec fn effective_passes(s: Seq<u8>, limit: nat) -> nat
    decreases limit,
{
    if limit == 0 || !has_escape(s) {
        0
    } else {
        1 + effective_passes(decode(s), (limit - 1) as nat)
    }
}

/// The declared number of decode passes.
pub open spec fn pass_limit(up_to_two: bool) -> nat {
    if up_to_two {
        2
    } else {
        1
    }
}

pub proof fn lemma_offsets(s: Seq<u8>, base: int)
    ensures
        decode_offsets(s, base).len() == decode(s).len(),
        decode(s).len() <= s.len(),
        forall|i: int|
            0 <= i < decode(s).len() ==> base <= #[trigger] decode_offsets(s, base)[i] < base
                + s.len(),
        forall|i: int, j: int|
            0 <= i < j < decode(s).len() ==> #[trigger] decode_offsets(s, base)[i]
                < #[trigger] decode_offsets(s, base)[j],
    decreases s.len(),
{
    if s.len() > 0 {
        if escape_at(s, 0) is Some {
            lemma_offsets(s.skip(3), base + 3);
        } else {
            lemma_offsets(s.skip(1), base + 1);
        }
    }
}

/// Every byte of a reading has a source inside the original path, in order.
pub proof fn lemma_reading(path: Seq<u8>, n: nat)
    ensures
        reading(path, n).bytes == decode_times(path, n),
        reading(path, n).sources.len() == reading(path, n).bytes.len(),
        reading(path, n).bytes.len() > 0 ==> reading(path, n).sources[0] == 0,
        forall|i: int|
            0 <= i < reading(path, n).bytes.len() ==> 0 <= #[trigger] reading(path, n).sources[i]
                < path.len(),
        forall|i: int, j: int|
            0 <= i < j < reading(path, n).bytes.len() ==> #[trigger] reading(path, n).sources[i]
                < #[trigger] reading(path, n).sources[j],
    decreases n,
{
    if n > 0 {
        lemma_reading(path, (n - 1) as nat);
        lemma_offsets(reading(path, (n - 1) as nat).bytes, 0);
    }
}

/// What a pass leaves comes from a `%` or is the byte that it comes from.
proof fn lemma_offset_bytes(s: Seq<u8>, base: int, i: int)
    requires
        0 <= i < decode(s).len(),
    ensures
        0 <= decode_offsets(s, base)[i] - base < s.len(),
        s[decode_offsets(s, base)[i] - base] == 0x25 || s[decode_offsets(s, base)[i] - base]
            == decode(s)[i],
    decreases s.len(),
{
    lemma_offsets(s, base);
    if i > 0 {
        if escape_at(s, 0) is Some {
            lemma_offset_bytes(s.skip(3), base + 3, i - 1);
        } else {
            lemma_offset_bytes(s.skip(1), base + 1, i - 1);
        }
    }
}

/// What a pass leaves is the byte of an escape or the byte that it comes from.
pub proof fn lemma_offset_origin(s: Seq<u8>, base: int, i: int)
    requires
        0 <= i < decode(s).len(),
    ensures
        0 <= decode_offsets(s, base)[i] - base < s.len(),
        escape_at(s, decode_offsets(s, base)[i] - base) == Some(decode(s)[i])
            || s[decode_offsets(s, base)[i] - base] == decode(s)[i],
    decreases s.len(),
{
    lemma_offsets(s, base);
    if i > 0 {
        let w: int = if escape_at(s, 0) is Some {
            3
        } else {
            1
        };
        let t = s.skip(w);
        lemma_offset_origin(t, base + w, i - 1);
        let o = decode_offsets(t, base + w)[i - 1] - base - w;
        assert(escape_at(t, o) == escape_at(s, o + w));
    }
}

/// Every byte of a reading comes from a `%` or is the byte that it comes from.
pub proof fn lemma_source_bytes(path: Seq<u8>, n: nat, i: int)
    requires
        0 <= i < reading(path, n).bytes.len(),
    ensures
        path[reading(path, n).sources[i]] == 0x25 || path[reading(path, n).sources[i]] == reading(
            path,
            n,
        ).bytes[i],
    decreases n,
{
    if n > 0 {
        let before = reading(path, (n - 1) as nat);
        lemma_offsets(before.bytes, 0);
        lemma_offset_bytes(before.bytes, 0, i);
        lemma_source_bytes(path, (n - 1) as nat, decode_offsets(before.bytes, 0)[i]);
    }
}

/// A path without a complete escape is a fixed point of decoding.
pub proof fn decode_fixed_point(s: Seq<u8>)
    requires
        !has_escape(s),
    ensures
        decode(s) == s,
    decreases s.len(),
{
    if s.len() > 0 {
        let t = s.skip(1);
        assert(escape_at(s, 0) is None);
        assert forall|i: int| 0 <= i < t.len() implies (#[trigger] escape_at(t, i)) is None by {
            assert(escape_at(t, i) == escape_at(s, i + 1));
        }
        decode_fixed_point(t);
        assert(seq![s[0]] + t =~= s);
    }
}

/// One possible whole-path interpretation. Offsets always refer to the original input.
pub struct Interpretation<'a> {
    pub bytes: Vec<u8>,
    pub origins: Option<Vec<usize>>,
    pub original: &'a [u8],
}

impl<'a> Interpretation<'a> {
    /// The offsets that the bytes come from.
    pub open spec fn sources(&self) -> Seq<int> {
        match self.origins {
            None => Seq::new(self.bytes@.len(), |i: int| i),
            Some(origins) => origins@.map_values(|o: usize| o as int),
        }
    }

    /// Whether this is what `path` reads as after `n` decode passes.
    pub open spec fn reads(&self, path: Seq<u8>, n: nat) -> bool {
        &&& self.original@ == path
        &&& self.bytes@ == reading(path, n).bytes
        &&& self.sources() == reading(path, n).sources
        &&& self.origins is None <==> n == 0
    }

    pub fn original(path: &'a [u8]) -> (view: Self)
        ensures
            view.reads(path@, 0),
    {
        Interpretation { bytes: copy_bytes(path), origins: None, original: path }
    }

    /// The offset in the original path of the byte at `offset`; 0 past the end of a
    /// decoded view.
    pub fn source_offset(&self, offset: usize) -> (source: usize)
        ensures
            source == match self.origins {
                None => offset,
                Some(origins) => if offset < origins@.len() {
                    origins@[offset as int]
                } else {
                    0
                },
            },
            self.origins is Some && offset < self.sources().len() ==> source
                == self.sources()[offset as int],
    {
        match &self.origins {
            None => offset,
            Some(origins) => if offset < origins.len() {
                origins[offset]
            } else {
                0
            },
        }
    }

    /// Whether the byte at `offset` of a decoded view stems from a `%` of the original.
    pub fn escaped(&self, offset: usize) -> (escaped: bool)
        requires
            offset < self.bytes@.len(),
            exists|n: nat| self.reads(self.original@, n),
        ensures
            escaped <==> self.origins is Some && self.original@[self.sources()[offset as int]]
                == 0x25,
    {
        let ghost n = choose|n: nat| self.reads(self.original@, n);
        proof {
            lemma_reading(self.original@, n);
        }
        match &self.origins {
            None => false,
            Some(origins) => {
                assert(self.sources()[offset as int] == origins@[offset as int]);
                assert(0 <= reading(self.original@, n).sources[offset as int]
                    < self.original@.len());
                self.original[origins[offset]] == 0x25
            },
        }
    }

    pub fn is_original(&self) -> (original: bool)
        ensures
            original <==> self.origins is None,
    {
        self.origins.is_none()
    }

    /// The next decode pass, or `None` where nothing would change.
    pub fn decode(&self) -> (next: Option<Self>)
        requires
            exists|n: nat| self.reads(self.original@, n),
        ensures
            match next {
                None => !has_escape(self.bytes@),
                Some(view) => {
                    &&& has_escape(self.bytes@)
                    &&& forall|n: nat|
                        self.reads(self.original@, n) ==> view.reads(self.original@, n + 1)
                },
            },
    {
        if !escape_present(&self.bytes) {
            return None;
        }
        let ghost s = self.bytes@;
        let ghost n = choose|n: nat| self.reads(self.original@, n);
        proof {
            lemma_reading(self.original@, n);
            lemma_offsets(s, 0);
            assert(s.skip(0) =~= s);
        }
        let mut out: Vec<u8> = Vec::new();
        let mut origins: Vec<usize> = Vec::new();
        let mut i: usize = 0;
        while i < self.bytes.len()
            invariant
                i <= s.len(),
                s == self.bytes@,
                self.sources().len() == s.len(),
                self.origins is None ==> s == self.original@,
                decode(s) == out@ + decode(s.skip(i as int)),
                out@.len() == origins@.len(),
                decode_offsets(s, 0).len() == decode(s).len(),
                decode_offsets(s, 0) == decode_offsets(s, 0).take(out@.len() as int)
                    + decode_offsets(s.skip(i as int), i as int),
                forall|j: int|
                    0 <= j < origins@.len() ==> (#[trigger] origins@[j]) as int
                        == self.sources()[decode_offsets(s, 0)[j]],
                forall|j: int|
                    0 <= j < decode(s).len() ==> 0 <= #[trigger] decode_offsets(s, 0)[j] < s.len(),
            decreases s.len() - i,
        {
            let ghost rest = s.skip(i as int);
            proof {
                assert(rest[0] == s[i as int]);
                assert(escape_at(rest, 0) == escape_at(s, i as int));
                assert(rest.skip(1) =~= s.skip(i + 1));
                if escape_at(s, i as int) is Some {
                    assert(rest.skip(3) =~= s.skip(i + 3));
                }
                assert(decode_offsets(rest, i as int)[0] == i);
                assert(decode_offsets(s, 0)[out@.len() as int] == i);
            }
            let ghost out0 = out@;
            let ghost origins0 = origins@;
            let ghost offs = decode_offsets(s, 0);
            let (byte, width): (u8, usize) = match byte_at(&self.bytes, i) {
                Some(b) => (b, 3),
                None => (self.bytes[i], 1),
            };
            let source: usize = self.source_offset(i);
            assert(source == self.sources()[i as int]);
            out.push(byte);
            origins.push(source);
            proof {
                assert(out@ + decode(s.skip(i + width)) =~= out0 + decode(rest));
                assert(offs =~= offs.take(out@.len() as int) + decode_offsets(
                    s.skip(i + width),
                    i + width,
                ));
                assert forall|j: int| 0 <= j < origins@.len() implies (#[trigger] origins@[j]) as int
                    == self.sources()[offs[j]] by {
                    if j < out0.len() {
                        assert(origins@[j] == origins0[j]);
                    }
                }
            }
            i = i + width;
        }
        let view = Interpretation { bytes: out, origins: Some(origins), original: self.original };
        proof {
            assert(s.skip(i as int).len() == 0);
            assert(out@ =~= decode(s));
            assert forall|n: nat| self.reads(self.original@, n) implies view.reads(
                self.original@,
                n + 1,
            ) by {
                assert(view.sources() =~= reading(self.original@, n + 1).sources) by {
                    assert forall|j: int| 0 <= j < out@.len() implies view.sources()[j]
                        == reading(self.original@, n + 1).sources[j] by {
                        assert(origins@[j] == self.sources()[decode_offsets(s, 0)[j]]);
                    }
                }
            }
        }
        Some(view)
    }
}

/// The raw path and each permitted complete decode, in order of passes. Stops when
/// decoding cannot change the path; malformed escapes are left literal.
pub fn interpretations<'a>(path: &'a [u8], up_to_two: bool) -> (views: Vec<Interpretation<'a>>)
    ensures
        views@.len() == 1 + effective_passes(path@, pass_limit(up_to_two)),
        forall|n: int| 0 <= n < views@.len() ==> (#[trigger] views@[n]).reads(path@, n as nat),
{
    let mut views: Vec<Interpretation<'a>> = Vec::new();
    views.push(Interpretation::original(path));
    let limit: usize = if up_to_two {
        2
    } else {
        1
    };
    let mut pass: usize = 0;
    while pass < limit
        invariant_except_break
            pass <= limit,
            limit == pass_limit(up_to_two),
            views@.len() == pass + 1,
            forall|n: int| 0 <= n < views@.len() ==> (#[trigger] views@[n]).reads(path@, n as nat),
            effective_passes(path@, limit as nat) == pass + effective_passes(
                reading(path@, pass as nat).bytes,
                (limit - pass) as nat,
            ),
        ensures
            views@.len() == 1 + effective_passes(path@, pass_limit(up_to_two)),
            forall|n: int| 0 <= n < views@.len() ==> (#[trigger] views@[n]).reads(path@, n as nat),
        decreases limit - pass,
    {
        assert(views@[pass as int].reads(path@, pass as nat));
        let decoded = views[pass].decode();
        match decoded {
            None => {
                break;
            },
            Some(next) => {
                views.push(next);
            },
        }
        pass = pass + 1;
    }
    views
}

/// Decode one hex digit (`0`-`9`, `a`-`f`, `A`-`F`) to its value, or `None`.
pub fn hex_val(b: u8) -> (value: Option<u8>)
    ensures
        value == hex_digit(b),
{
    if 0x30 <= b && b <= 0x39 {
        Some(b - 0x30)
    } else if 0x61 <= b && b <= 0x66 {
        Some(b - 0x61 + 10)
    } else if 0x41 <= b && b <= 0x46 {
        Some(b - 0x41 + 10)
    } else {
        None
    }
}

/// Decode the byte of a single `%XX` escape at `b[i]`, or `None` if `b[i]` does not
/// begin a complete escape (not a `%`, or fewer than two hex digits follow).
pub fn byte_at(b: &[u8], i: usize) -> (byte: Option<u8>)
    ensures
        byte == escape_at(b@, i as int),
{
    if i >= b.len() || b.len() - i < 3 || b[i] != 0x25 {
        return None;
    }
    match (hex_val(b[i + 1]), hex_val(b[i + 2])) {
        (Some(hi), Some(lo)) => Some(hi * 16 + lo),
        _ => None,
    }
}

/// Whether `path` carries any complete `%XX` escape.
pub fn escape_present(path: &[u8]) -> (present: bool)
    ensures
        present == has_escape(path@),
{
    let mut i: usize = 0;
    while i < path.len()
        invariant
            i <= path@.len(),
            forall|j: int| 0 <= j < i ==> (#[trigger] escape_at(path@, j)) is None,
        decreases path@.len() - i,
    {
        if byte_at(path, i).is_some() {
            assert(escape_at(path@, i as int) is Some);
            return true;
        }
        i = i + 1;
    }
    false
}

/// Percent-decode every complete `%XX` escape once (one pass: `%252F` becomes `%2F`).
///
/// Yields raw **bytes**, and is total: decoding can produce sequences that are not
/// valid UTF-8, and a backend routes on bytes regardless.
pub fn percent_decode_once(path: &[u8]) -> (out: Vec<u8>)
    ensures
        out@ == decode(path@),
{
    let mut out: Vec<u8> = Vec::new();
    let mut i: usize = 0;
    assert(path@.skip(0) =~= path@);
    while i < path.len()
        invariant
            i <= path@.len(),
            decode(path@) == out@ + decode(path@.skip(i as int)),
        decreases path@.len() - i,
    {
        let ghost rest = path@.skip(i as int);
        let ghost out0 = out@;
        assert(escape_at(rest, 0) == escape_at(path@, i as int));
        assert(rest.skip(1) =~= path@.skip(i + 1));
        match byte_at(path, i) {
            Some(b) => {
                assert(rest.skip(3) =~= path@.skip(i + 3));
                out.push(b);
                assert(out@ + decode(path@.skip(i + 3)) =~= out0 + decode(rest));
                i = i + 3;
            },
            None => {
                out.push(path[i]);
                assert(out@ + decode(path@.skip(i + 1)) =~= out0 + decode(rest));
                i = i + 1;
            },
        }
    }
    assert(path@.skip(i as int).len() == 0);
    assert(out@ =~= decode(path@));
    out
}

/// The overlong UTF-8 form of `/` or `.` that starts at `s[i]`: the ASCII byte and the
/// number of bytes that spell it.
pub open spec fn overlong_form(s: Seq<u8>, i: int) -> Option<(u8, int)> {
    if !(0 <= i < s.len()) {
        None
    } else if s[i] == 0xC0 && i + 1 < s.len() && (s[i + 1] == 0xAF || s[i + 1] == 0xAE) {
        Some(((s[i + 1] - 0x80) as u8, 2))
    } else if s[i] == 0xE0 && i + 2 < s.len() && s[i + 1] == 0x80 && (s[i + 2] == 0xAF || s[i + 2]
        == 0xAE) {
        Some(((s[i + 2] - 0x80) as u8, 3))
    } else if s[i] == 0xF0 && i + 3 < s.len() && s[i + 1] == 0x80 && s[i + 2] == 0x80 && (s[i + 3]
        == 0xAF || s[i + 3] == 0xAE) {
        Some(((s[i + 3] - 0x80) as u8, 4))
    } else {
        None
    }
}

/// Recognize raw overlong UTF-8 bytes encoding `/` or `.`, after percent decoding.
/// Returns the ASCII byte and the number of bytes consumed (2, 3, or 4).
pub fn overlong_at(b: &[u8], i: usize) -> (form: Option<(u8, usize)>)
    ensures
        match form {
            Some((byte, width)) => overlong_form(b@, i as int) == Some((byte, width as int)),
            None => overlong_form(b@, i as int) is None,
        },
{
    if i >= b.len() {
        return None;
    }
    // `/` and `.` have six payload bits at most, so only zero payload bits may precede
    // the last byte of an overlong form.
    let left: usize = b.len() - i;
    let (last, width): (u8, usize) = if b[i] == 0xC0 && left >= 2 {
        (b[i + 1], 2)
    } else if b[i] == 0xE0 && left >= 3 && b[i + 1] == 0x80 {
        (b[i + 2], 3)
    } else if b[i] == 0xF0 && left >= 4 && b[i + 1] == 0x80 && b[i + 2] == 0x80 {
        (b[i + 3], 4)
    } else {
        return None;
    };
    if last == 0xAF || last == 0xAE {
        Some((last - 0x80, width))
    } else {
        None
    }
}

/// The fullwidth structural character whose UTF-8 form starts at `s[i]`: the ASCII byte
/// it folds to. Every form is three bytes long.
pub open spec fn fullwidth_form(s: Seq<u8>, i: int) -> Option<u8> {
    if 0 <= i && i + 2 < s.len() && s[i] == 0xEF && s[i + 1] == 0xBC {
        fullwidth_folded(s[i + 2])
    } else {
        None
    }
}

/// What the last byte of a fullwidth form says that it folds to.
pub open spec fn fullwidth_folded(third: u8) -> Option<u8> {
    if third == 0x8F {
        Some(0x2F)
    } else if third == 0x8E {
        Some(0x2E)
    } else if third == 0x9B {
        Some(0x3B)
    } else if third == 0xBC {
        Some(0x5C)
    } else {
        None
    }
}

/// Recognize raw UTF-8 fullwidth structural characters after percent decoding.
/// Returns the folded ASCII byte and the number of bytes consumed.
pub fn fullwidth_at(b: &[u8], i: usize) -> (form: Option<(u8, usize)>)
    ensures
        form == match fullwidth_form(b@, i as int) {
            Some(byte) => Some((byte, 3usize)),
            None => None,
        },
{
    if i >= b.len() || b.len() - i < 3 || b[i] != 0xEF || b[i + 1] != 0xBC {
        return None;
    }
    let third: u8 = b[i + 2];
    if third == 0x8F {
        Some((0x2F, 3))
    } else if third == 0x8E {
        Some((0x2E, 3))
    } else if third == 0x9B {
        Some((0x3B, 3))
    } else if third == 0xBC {
        Some((0x5C, 3))
    } else {
        None
    }
}

/// A vector with the bytes of `b`.
pub fn copy_bytes(b: &[u8]) -> (out: Vec<u8>)
    ensures
        out@ == b@,
{
    let mut out: Vec<u8> = Vec::new();
    let mut i: usize = 0;
    while i < b.len()
        invariant
            i <= b@.len(),
            out@ == b@.take(i as int),
        decreases b@.len() - i,
    {
        out.push(b[i]);
        assert(b@.take(i + 1) =~= b@.take(i as int).push(b@[i as int]));
        i = i + 1;
    }
    assert(b@.take(i as int) =~= b@);
    out
}

} // verus!
