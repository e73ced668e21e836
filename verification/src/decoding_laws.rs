//! What decoding and case folding do to a path, said of its bytes alone.

use vstd::prelude::*;

use crate::anchor;
use crate::percent;

verus! {

/// The hexadecimal digit of a value, in uppercase or in lowercase.
pub open spec fn hex_char(value: int, upper: bool) -> char {
    let digits = if upper {
        seq!['0', '1', '2', '3', '4', '5', '6', '7', '8', '9', 'A', 'B', 'C', 'D', 'E', 'F']
    } else {
        seq!['0', '1', '2', '3', '4', '5', '6', '7', '8', '9', 'a', 'b', 'c', 'd', 'e', 'f']
    };
    digits[value]
}

/// Whether the three bytes are a percent sign and the two digits of the byte, each in either
/// case.
pub open spec fn escape_of(three: Seq<u8>, b: u8) -> bool {
    &&& three.len() == 3
    &&& three[0] == '%' as u8
    &&& exists|upper: bool| #[trigger] hex_char(b as int / 16, upper) as u8 == three[1]
    &&& exists|upper: bool| #[trigger] hex_char(b as int % 16, upper) as u8 == three[2]
}

/// The table and the values of digits agree.
proof fn lemma_digit(c: u8, value: int)
    requires
        0 <= value < 16,
    ensures
        (exists|upper: bool| #[trigger] hex_char(value, upper) as u8 == c) <==> percent::hex_digit(c)
            == Some(value as u8),
{
    let l = hex_char(value, false) as u8;
    let u = hex_char(value, true) as u8;
    assert(value == 0 || value == 1 || value == 2 || value == 3 || value == 4 || value == 5 || value
        == 6 || value == 7 || value == 8 || value == 9 || value == 10 || value == 11 || value == 12
        || value == 13 || value == 14 || value == 15);
    assert(percent::hex_digit(l) == Some(value as u8));
    assert(percent::hex_digit(u) == Some(value as u8));
    assert(percent::hex_digit(c) == Some(value as u8) ==> c == l || c == u);
    if exists|upper: bool| #[trigger] hex_char(value, upper) as u8 == c {
        let upper = choose|upper: bool| #[trigger] hex_char(value, upper) as u8 == c;
        assert(upper || !upper);
    }
}

/// What the scanner reads as an escape is one.
proof fn lemma_escape_of(s: Seq<u8>, at: int, b: u8)
    requires
        0 <= at,
        at + 3 <= s.len(),
    ensures
        percent::escape_at(s, at) == Some(b) <==> escape_of(s.subrange(at, at + 3), b),
{
    let three = s.subrange(at, at + 3);
    let hi = b as int / 16;
    let lo = b as int % 16;
    lemma_digit(three[1], hi);
    lemma_digit(three[2], lo);
    assert(b == hi * 16 + lo);
    if percent::escape_at(s, at) == Some(b) {
        let x = percent::hex_digit(s[at + 1])->Some_0;
        let y = percent::hex_digit(s[at + 2])->Some_0;
        assert(b == x * 16 + y && x < 16 && y < 16);
        assert(x == hi && y == lo);
    }
}

/// Every byte has its escapes: the percent sign and its two digits, in either case, decode to
/// the byte.
pub proof fn every_byte_has_its_escapes(three: Seq<u8>, b: u8)
    requires
        escape_of(three, b),
    ensures
        percent::decode(three) == seq![b],
{
    escapes_decode_where_they_stand(Seq::empty(), three, b, Seq::empty());
    assert(Seq::<u8>::empty() + three + Seq::<u8>::empty() =~= three);
    assert(percent::decode(Seq::<u8>::empty()) =~= Seq::<u8>::empty());
    assert(Seq::<u8>::empty() + seq![b] + Seq::<u8>::empty() =~= seq![b]);
}

/// An escape is decoded where it stands: what precedes it up to the last percent sign stays,
/// and what follows is decoded by itself.
pub proof fn escapes_decode_where_they_stand(s: Seq<u8>, three: Seq<u8>, b: u8, t: Seq<u8>)
    requires
        !s.contains('%' as u8),
        escape_of(three, b),
    ensures
        percent::decode(s + three + t) == s + seq![b] + percent::decode(t),
    decreases s.len(),
{
    let all = s + three + t;
    if s.len() == 0 {
        assert(all.subrange(0, 3) =~= three);
        lemma_escape_of(all, 0, b);
        assert(all.skip(3) =~= t);
        assert(s + seq![b] + percent::decode(t) =~= seq![b] + percent::decode(t));
    } else {
        assert(s.contains(s[0]));
        assert(percent::escape_at(all, 0) is None);
        let rest = s.skip(1);
        assert forall|i: int| 0 <= i < rest.len() implies #[trigger] rest[i] != 0x25 by {
            assert(s.contains(s[i + 1]));
        }
        escapes_decode_where_they_stand(rest, three, b, t);
        assert(all.skip(1) =~= rest + three + t);
        assert(seq![s[0]] + (rest + seq![b] + percent::decode(t)) =~= s + seq![b]
            + percent::decode(t));
    }
}

/// Everything else stays: a byte that is no percent sign, and a percent sign that begins no
/// escape.
pub proof fn other_bytes_stay(s: Seq<u8>, c: u8, t: Seq<u8>)
    requires
        !s.contains('%' as u8),
        c == '%' as u8 ==> t.len() < 2 || forall|b: u8| !escape_of(seq![c] + t.take(2), b),
    ensures
        percent::decode(s + seq![c] + t) == s + seq![c] + percent::decode(t),
    decreases s.len(),
{
    let all = s + seq![c] + t;
    if s.len() == 0 {
        assert(all.skip(1) =~= t);
        if percent::escape_at(all, 0) is Some {
            let b = percent::escape_at(all, 0)->Some_0;
            lemma_escape_of(all, 0, b);
            assert(all.subrange(0, 3) =~= seq![c] + t.take(2));
        }
        assert(s + seq![c] + percent::decode(t) =~= seq![c] + percent::decode(t));
    } else {
        assert(s.contains(s[0]));
        assert(percent::escape_at(all, 0) is None);
        let rest = s.skip(1);
        assert forall|i: int| 0 <= i < rest.len() implies #[trigger] rest[i] != 0x25 by {
            assert(s.contains(s[i + 1]));
        }
        other_bytes_stay(rest, c, t);
        assert(all.skip(1) =~= rest + seq![c] + t);
        assert(seq![s[0]] + (rest + seq![c] + percent::decode(t)) =~= s + seq![c]
            + percent::decode(t));
    }
}

/// A path holds an escape exactly where three of its bytes are one.
pub proof fn escapes_are_found(s: Seq<u8>)
    ensures
        percent::has_escape(s) <==> exists|at: int, b: u8|
            0 <= at <= s.len() - 3 && #[trigger] escape_of(s.subrange(at, at + 3), b),
{
    if percent::has_escape(s) {
        let at = choose|at: int| 0 <= at < s.len() && percent::escape_at(s, at) is Some;
        lemma_escape_of(s, at, percent::escape_at(s, at)->Some_0);
    }
    if exists|at: int, b: u8|
        0 <= at <= s.len() - 3 && #[trigger] escape_of(s.subrange(at, at + 3), b) {
        let (at, b) = choose|at: int, b: u8|
            0 <= at <= s.len() - 3 && #[trigger] escape_of(s.subrange(at, at + 3), b);
        lemma_escape_of(s, at, b);
        assert(percent::escape_at(s, at) is Some);
    }
}

/// A spelling of a path in which each byte is an escape or, unless it is a percent sign,
/// itself.
pub open spec fn encodes(spelling: Seq<u8>, s: Seq<u8>) -> bool
    decreases s.len(),
{
    if s.len() == 0 {
        spelling.len() == 0
    } else {
        ||| spelling.len() >= 3 && escape_of(spelling.take(3), s[0]) && encodes(
            spelling.skip(3),
            s.skip(1),
        )
        ||| spelling.len() >= 1 && spelling[0] == s[0] && s[0] != '%' as u8 && encodes(
            spelling.skip(1),
            s.skip(1),
        )
    }
}

/// One pass undoes one layer of encoding, however it was made.
pub proof fn decoding_undoes_encoding(spelling: Seq<u8>, s: Seq<u8>)
    requires
        encodes(spelling, s),
    ensures
        percent::decode(spelling) == s,
    decreases s.len(),
{
    let none = Seq::<u8>::empty();
    if s.len() > 0 {
        let rest = s.skip(1);
        if spelling.len() >= 3 && escape_of(spelling.take(3), s[0]) && encodes(
            spelling.skip(3),
            rest,
        ) {
            decoding_undoes_encoding(spelling.skip(3), rest);
            escapes_decode_where_they_stand(none, spelling.take(3), s[0], spelling.skip(3));
            assert(none + spelling.take(3) + spelling.skip(3) =~= spelling);
        } else {
            decoding_undoes_encoding(spelling.skip(1), rest);
            other_bytes_stay(none, s[0], spelling.skip(1));
            assert(none + seq![s[0]] + spelling.skip(1) =~= spelling);
        }
        assert(none + seq![s[0]] + rest =~= s);
    } else {
        assert(spelling =~= none);
        assert(s =~= none);
    }
}

/// A number of passes is that many passes, one after the other.
pub proof fn passes_add_up(s: Seq<u8>, m: nat, n: nat)
    ensures
        percent::decode_times(s, 0) == s,
        percent::decode_times(s, 1) == percent::decode(s),
        percent::decode_times(s, m + n) == percent::decode_times(percent::decode_times(s, m), n),
    decreases n,
{
    assert(percent::decode_times(s, 0) == s);
    assert(percent::decode_times(s, 1) == percent::decode(percent::decode_times(s, 0)));
    if n > 0 {
        passes_add_up(s, m, (n - 1) as nat);
    }
}

/// A folded path is the path with each uppercase ASCII letter moved to its place among the
/// lowercase ones, and nothing else changed. It holds no uppercase letter.
pub proof fn folding_lowercases_letters(s: Seq<u8>)
    ensures
        anchor::folded(s).len() == s.len(),
        forall|i: int|
            0 <= i < s.len() ==> if 0x41 <= s[i] <= 0x5A {
                #[trigger] anchor::folded(s)[i] == s[i] + 0x20
            } else {
                anchor::folded(s)[i] == s[i]
            },
        forall|i: int| 0 <= i < s.len() ==> !(0x41 <= #[trigger] anchor::folded(s)[i] <= 0x5A),
{
}

/// Folding is done once, and changes a path exactly where an uppercase letter is found in it.
pub proof fn folding_is_settled(s: Seq<u8>)
    ensures
        anchor::folded(anchor::folded(s)) == anchor::folded(s),
        anchor::has_upper(s) <==> anchor::folded(s) != s,
        anchor::has_upper(s) <==> exists|i: int|
            0 <= i < s.len() && 'A' as u8 <= #[trigger] s[i] <= 'Z' as u8,
{
    let f = anchor::folded(s);
    assert(anchor::folded(f) =~= f);
    if anchor::has_upper(s) {
        let i = choose|i: int| 0 <= i < s.len() && 0x41 <= #[trigger] s[i] <= 0x5A;
        assert(f[i] != s[i]);
    } else {
        assert(f =~= s);
    }
}

} // verus!
