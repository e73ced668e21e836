//! The stable prefix of a flagged path, and the bytes that decoding and case folding
//! rewrite.

use vstd::prelude::*;
use vstd::string::*;

verus! {

/// The byte `/`, as a path.
pub open spec fn root() -> Seq<u8> {
    seq![0x2Fu8]
}

/// An ASCII letter in lowercase, any other byte as it is.
pub open spec fn lower(b: u8) -> u8 {
    if 0x41 <= b <= 0x5A {
        (b + 0x20) as u8
    } else {
        b
    }
}

/// A path with its ASCII letters in lowercase.
pub open spec fn folded(s: Seq<u8>) -> Seq<u8> {
    s.map_values(|b: u8| lower(b))
}

/// Whether a path holds an uppercase ASCII letter.
pub open spec fn has_upper(s: Seq<u8>) -> bool {
    exists|i: int| 0 <= i < s.len() && 0x41 <= #[trigger] s[i] <= 0x5A
}

/// Whether decoding, or case folding where it is declared, may rewrite the byte.
pub open spec fn rewritable(b: u8, fold: bool) -> bool {
    b == 0x25 || (fold && 0x41 <= b <= 0x5A)
}

/// The first rewritable byte at or after `i`, or the length.
pub open spec fn content_from(s: Seq<u8>, fold: bool, i: int) -> int
    decreases s.len() - i,
{
    if i >= s.len() || rewritable(s[i], fold) {
        i
    } else {
        content_from(s, fold, i + 1)
    }
}

/// Everything up to and including the last slash; `/` where there is none.
pub open spec fn through_slash(s: Seq<u8>) -> Seq<u8>
    decreases s.len(),
{
    if s.len() == 0 {
        root()
    } else if s.last() == 0x2F {
        s
    } else {
        through_slash(s.drop_last())
    }
}

/// The prefix without its last `k` segments; the root absorbs any excess.
pub open spec fn raised(prefix: Seq<u8>, k: nat) -> Seq<u8>
    decreases k,
{
    if k == 0 || prefix == root() {
        prefix
    } else {
        raised(through_slash(prefix.drop_last()), (k - 1) as nat)
    }
}

/// Where the part of a path that nothing may rewrite ends at the latest: at the offset of
/// the first structural form or at the first rewritable byte.
pub open spec fn bound(path: Seq<u8>, fold: bool, offset: int) -> int {
    if content_from(path, fold, 0) < offset {
        content_from(path, fold, 0)
    } else {
        offset
    }
}

/// The anchor: the path up to the last slash before its bound, raised by as many segments
/// as may turn out to be dot-segments.
pub open spec fn anchor(path: Seq<u8>, fold: bool, offset: int, pops: nat) -> Seq<u8> {
    raised(through_slash(path.take(bound(path, fold, offset))), pops)
}

pub proof fn lemma_content_from(s: Seq<u8>, fold: bool, i: int)
    requires
        0 <= i <= s.len(),
    ensures
        i <= content_from(s, fold, i) <= s.len(),
        content_from(s, fold, i) < s.len() ==> rewritable(s[content_from(s, fold, i)], fold),
        forall|j: int| i <= j < content_from(s, fold, i) ==> !rewritable(#[trigger] s[j], fold),
    decreases s.len() - i,
{
    if i < s.len() && !rewritable(s[i], fold) {
        lemma_content_from(s, fold, i + 1);
    }
}

/// Behind an ASCII character another one begins, or the text ends.
proof fn lemma_boundary_after_ascii(bytes: Seq<u8>, i: int)
    requires
        vstd::utf8::valid_utf8(bytes),
        0 <= i < bytes.len(),
        bytes[i] < 0x80,
        vstd::utf8::is_char_boundary(bytes, i),
    ensures
        vstd::utf8::is_char_boundary(bytes, i + 1),
    decreases bytes.len(),
{
    if i == 0 {
        assert(vstd::utf8::length_of_first_scalar(bytes) == 1);
        assert(vstd::utf8::is_char_boundary(vstd::utf8::pop_first_scalar(bytes), 0));
    } else {
        let n = vstd::utf8::length_of_first_scalar(bytes);
        let rest = vstd::utf8::pop_first_scalar(bytes);
        assert(rest =~= bytes.skip(n));
        lemma_boundary_after_ascii(rest, i - n);
    }
}

/// A text can be cut before and behind an ASCII character.
pub proof fn lemma_ascii_boundary(path: &str, i: int)
    requires
        0 <= i < path.spec_bytes().len(),
        path.spec_bytes()[i] < 0x80,
    ensures
        vstd::utf8::is_char_boundary(path.spec_bytes(), i),
        vstd::utf8::is_char_boundary(path.spec_bytes(), i + 1),
{
    let bytes = path.spec_bytes();
    vstd::utf8::encode_utf8_valid_utf8(path@);
    vstd::utf8::is_char_boundary_iff_not_is_continuation_byte(bytes, i);
    lemma_boundary_after_ascii(bytes, i);
}

/// The clean prefix of `path` up to and **including** the last `/` strictly before
/// `offset`: everything that a boundary shift triggered at `offset` or later cannot
/// rewrite. `"/"` when no such separator exists, and when `offset` is no place to cut the
/// text: inside a character or past the end. The root anchors the most, so a bad offset
/// fails closed.
pub fn stable_prefix<'p>(path: &'p str, offset: usize) -> (prefix: &'p str)
    ensures
        prefix.spec_bytes() == if vstd::utf8::is_char_boundary(path.spec_bytes(), offset as int) {
            through_slash(path.spec_bytes().take(offset as int))
        } else {
            root()
        },
{
    proof {
        reveal_strlit("/");
        vstd::utf8::is_ascii_chars_encode_utf8("/"@);
        assert("/".spec_bytes() =~= root());
        vstd::utf8::encode_utf8_valid_utf8(path@);
    }
    if !path.is_char_boundary(offset) {
        return "/";
    }
    let bytes = path.as_bytes();
    let mut end: usize = offset;
    while end > 0
        invariant
            end <= offset <= bytes@.len(),
            bytes@ == path.spec_bytes(),
            vstd::utf8::is_char_boundary(bytes@, offset as int),
            "/".spec_bytes() == root(),
            through_slash(bytes@.take(offset as int)) == through_slash(bytes@.take(end as int)),
        decreases end,
    {
        assert(bytes@.take(end as int).last() == bytes@[end - 1]);
        assert(bytes@.take(end as int).drop_last() =~= bytes@.take(end - 1));
        if bytes[end - 1] == 0x2F {
            proof {
                lemma_ascii_boundary(path, end - 1);
            }
            let (prefix, _) = path.split_at(end);
            assert(prefix.spec_bytes() =~= bytes@.take(end as int));
            return prefix;
        }
        end = end - 1;
    }
    "/"
}

/// Whether the text is the root path alone.
fn is_root(prefix: &str) -> (same: bool)
    ensures
        same <==> prefix.spec_bytes() == root(),
{
    let bytes = prefix.as_bytes();
    let same = bytes.len() == 1 && bytes[0] == 0x2F;
    assert(same ==> bytes@ =~= root());
    same
}

/// Raise a `/`-terminated anchor prefix by `k` segments, the dot-segment climb radius.
/// Each pop drops the last segment (`"/a/b/"` becomes `"/a/"`); the root absorbs any
/// excess (`..` cannot climb above `/`). A prefix whose last character is not ASCII is no
/// anchor and is raised to the root.
pub fn raise<'p>(prefix: &'p str, k: usize) -> (anchor: &'p str)
    requires
        k == 0 || prefix.spec_bytes().len() > 0,
    ensures
        anchor.spec_bytes() == if k == 0 || vstd::utf8::is_char_boundary(
            prefix.spec_bytes(),
            prefix.spec_bytes().len() - 1,
        ) {
            raised(prefix.spec_bytes(), k as nat)
        } else {
            root()
        },
{
    let ghost fits = k == 0 || vstd::utf8::is_char_boundary(
        prefix.spec_bytes(),
        prefix.spec_bytes().len() - 1,
    );
    let mut p: &'p str = prefix;
    let mut left: usize = k;
    while left > 0 && !is_root(p)
        invariant
            left <= k,
            left == 0 || p.spec_bytes().len() > 0,
            left == k ==> p == prefix,
            left < k ==> p.spec_bytes().last() == 0x2F,
            fits == (k == 0 || vstd::utf8::is_char_boundary(
                prefix.spec_bytes(),
                prefix.spec_bytes().len() - 1,
            )),
            fits ==> raised(prefix.spec_bytes(), k as nat) == raised(p.spec_bytes(), left as nat),
            !fits && left < k ==> p.spec_bytes() == root(),
        decreases left,
    {
        let bytes = p.as_bytes();
        // Drop the trailing `/`, then cut after the previous one.
        assert(bytes@.drop_last() =~= bytes@.take(bytes@.len() - 1));
        let parent = stable_prefix(p, bytes.len() - 1);
        proof {
            if p.spec_bytes().last() == 0x2F {
                lemma_ascii_boundary(p, bytes@.len() - 1);
            }
            lemma_through_slash(bytes@.drop_last());
        }
        p = parent;
        left = left - 1;
    }
    p
}

/// What is cut behind a slash ends in one.
pub proof fn lemma_through_slash(s: Seq<u8>)
    ensures
        through_slash(s).len() > 0,
        through_slash(s).last() == 0x2F,
        through_slash(s) == root() || through_slash(s) == s.take(through_slash(s).len() as int),
        through_slash(s).len() <= s.len() || through_slash(s) == root(),
        s.len() > 0 && s[0] == 0x2F ==> through_slash(s).len() <= s.len() && through_slash(s)
            == s.take(through_slash(s).len() as int),
    decreases s.len(),
{
    if s.len() > 0 {
        if s.last() == 0x2F {
            assert(s.take(s.len() as int) =~= s);
        } else {
            lemma_through_slash(s.drop_last());
            let t = through_slash(s);
            if t.len() <= s.drop_last().len() {
                assert(s.drop_last().take(t.len() as int) =~= s.take(t.len() as int));
            }
            if s[0] == 0x2F {
                assert(s.len() > 1);
                assert(s.drop_last()[0] == 0x2F);
            }
        }
    }
}

/// Offset of the first byte a modeled **content** transform could rewrite: any `%` (a
/// percent-escape, counted even when malformed, since a lenient decoder may still consume
/// it) and, under a case-folding backend, any ASCII uppercase. `None` when the path
/// carries neither.
pub fn first_content_byte(path: &[u8], fold: bool) -> (offset: Option<usize>)
    ensures
        match offset {
            Some(i) => i == content_from(path@, fold, 0) && i < path@.len(),
            None => content_from(path@, fold, 0) == path@.len(),
        },
{
    let mut i: usize = 0;
    while i < path.len()
        invariant
            i <= path@.len(),
            content_from(path@, fold, 0) == content_from(path@, fold, i as int),
        decreases path@.len() - i,
    {
        let b: u8 = path[i];
        if b == 0x25 || (fold && 0x41 <= b && b <= 0x5A) {
            return Some(i);
        }
        i = i + 1;
    }
    None
}

/// Whether a path holds an uppercase ASCII letter.
pub fn uppercase_present(path: &[u8]) -> (present: bool)
    ensures
        present == has_upper(path@),
{
    let mut i: usize = 0;
    while i < path.len()
        invariant
            i <= path@.len(),
            forall|j: int| 0 <= j < i ==> !(0x41 <= #[trigger] path@[j] <= 0x5A),
        decreases path@.len() - i,
    {
        if 0x41 <= path[i] && path[i] <= 0x5A {
            return true;
        }
        i = i + 1;
    }
    false
}

/// A path with its ASCII letters in lowercase.
pub fn lowercase(path: &[u8]) -> (out: Vec<u8>)
    ensures
        out@ == folded(path@),
{
    let mut out: Vec<u8> = Vec::new();
    let mut i: usize = 0;
    while i < path.len()
        invariant
            i <= path@.len(),
            out@ == folded(path@.take(i as int)),
        decreases path@.len() - i,
    {
        let b: u8 = path[i];
        let l: u8 = if 0x41 <= b && b <= 0x5A {
            b + 0x20
        } else {
            b
        };
        out.push(l);
        assert(path@.take(i + 1) =~= path@.take(i as int).push(b));
        assert(out@ =~= folded(path@.take(i + 1)));
        i = i + 1;
    }
    assert(path@.take(i as int) =~= path@);
    out
}

} // verus!
