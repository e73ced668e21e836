//! What the parts of messages say.

use vstd::prelude::*;

use crate::config::{ResolveError, StructuralClass, StructuralClasses, StructuralProbe};
use crate::diagnostics;
use crate::methods;
use crate::path_confusion::DenyReason;
use crate::pattern_laws;
use crate::pattern_laws::Piece;
use crate::table;
use crate::text;

verus! {

/// The ten digits, each at its own value.
pub open spec fn digits() -> Seq<char> {
    seq!['0', '1', '2', '3', '4', '5', '6', '7', '8', '9']
}

/// The number that digits spell, the most significant first.
pub open spec fn number(spelling: Seq<char>) -> nat
    decreases spelling.len(),
{
    if spelling.len() == 0 {
        0
    } else {
        (10 * number(spelling.drop_last()) + digits().index_of(spelling.last())) as nat
    }
}

/// A number is written in digits that spell it, with no zero in front but for zero itself.
pub proof fn numbers_read_back(n: nat)
    ensures
        number(text::decimal(n)) == n,
        text::decimal(n).len() > 0,
        forall|i: int|
            0 <= i < text::decimal(n).len() ==> digits().contains(#[trigger] text::decimal(n)[i]),
        n > 0 ==> text::decimal(n)[0] != '0',
        n == 0 ==> text::decimal(n) == seq!['0'],
    decreases n,
{
    let d = (n % 10) as int;
    let c = ('0' as u32 + n % 10) as char;
    assert(digits()[d] == c);
    assert(digits().contains(c));
    assert(digits().index_of(c) == d) by {
        let k = digits().index_of(c);
        assert(digits()[k] == c);
        assert(0 <= k < 10);
    }
    let spelling = text::decimal(n);
    if n < 10 {
        assert(spelling =~= seq![c]);
        assert(spelling.drop_last() =~= Seq::<char>::empty());
        assert(number(spelling.drop_last()) == 0);
        assert(spelling.last() == c);
    } else {
        numbers_read_back(n / 10);
        let more = text::decimal(n / 10);
        assert(spelling == more.push(c));
        assert(spelling.drop_last() =~= more);
        assert(spelling.last() == c);
        assert(number(spelling) == 10 * number(more) + d);
        assert forall|i: int| 0 <= i < spelling.len() implies digits().contains(
            #[trigger] spelling[i],
        ) by {
            if i < more.len() {
                assert(spelling[i] == more[i]);
            }
        }
        assert(spelling[0] == more[0]);
    }
}

/// A list of methods is the names of its parts with a comma and a space between them; the list
/// of one method is its name.
pub proof fn method_lists_are_joined(a: Seq<http::Method>, b: Seq<http::Method>)
    requires
        a.len() > 0,
        b.len() > 0,
    ensures
        diagnostics::names_text(a + b) == diagnostics::names_text(a) + seq![',', ' ']
            + diagnostics::names_text(b),
        a.len() == 1 ==> diagnostics::names_text(a) == methods::method_text(a[0]),
    decreases b.len(),
{
    reveal_strlit(", ");
    assert(", "@ =~= seq![',', ' ']);
    let all = a + b;
    assert(all.drop_last() =~= a + b.drop_last());
    assert(all.last() == b.last());
    if b.len() == 1 {
        assert(all.drop_last() =~= a);
        assert(b.last() == b[0]);
        assert(diagnostics::names_text(all) =~= diagnostics::names_text(a) + seq![',', ' ']
            + diagnostics::names_text(b));
    } else {
        method_lists_are_joined(a, b.drop_last());
        assert(diagnostics::names_text(all) =~= diagnostics::names_text(a) + seq![',', ' ']
            + diagnostics::names_text(b));
    }
}

/// A list of probes is the lists of its parts with a comma and a space between them; the list
/// of one probe is its quoted name.
pub proof fn probe_lists_are_joined(
    a: Seq<std::sync::Arc<Box<dyn StructuralProbe>>>,
    b: Seq<std::sync::Arc<Box<dyn StructuralProbe>>>,
)
    requires
        a.len() > 0,
        b.len() > 0,
    ensures
        StructuralClasses::labels_text(a + b) == StructuralClasses::labels_text(a) + seq![',', ' ']
            + StructuralClasses::labels_text(b),
        a.len() == 1 ==> StructuralClasses::labels_text(a) == text::quoted(a[0].label()),
    decreases b.len(),
{
    reveal_strlit(", ");
    assert(", "@ =~= seq![',', ' ']);
    let all = a + b;
    assert(all.drop_last() =~= a + b.drop_last());
    assert(all.last() == b.last());
    if b.len() == 1 {
        assert(all.drop_last() =~= a);
        assert(b.last() == b[0]);
    } else {
        probe_lists_are_joined(a, b.drop_last());
    }
    assert(StructuralClasses::labels_text(all) =~= StructuralClasses::labels_text(a) + seq![
        ',',
        ' ',
    ] + StructuralClasses::labels_text(b));
}

/// A prefix is named by its texts, each behind a slash, with `*` for a parameter; the empty one
/// is the root.
pub proof fn prefixes_are_named(pieces: Seq<Piece>)
    requires
        forall|i: int| 0 <= i < pieces.len() ==> !((#[trigger] pieces[i]) is Rest),
    ensures
        table::prefix_text(pieces.map_values(|piece: Piece| pattern_laws::meaning(piece)))
            == if pieces.len() == 0 {
            seq!['/']
        } else {
            pattern_laws::slashed(
                pieces.map_values(
                    |piece: Piece|
                        match piece {
                            Piece::Text(text) => text,
                            _ => seq!['*'],
                        },
                ),
            )
        },
    decreases pieces.len(),
{
    let segs = pieces.map_values(|piece: Piece| pattern_laws::meaning(piece));
    let names = pieces.map_values(
        |piece: Piece|
            match piece {
                Piece::Text(text) => text,
                _ => seq!['*'],
            },
    );
    if pieces.len() > 0 {
        let less = pieces.drop_last();
        assert forall|i: int| 0 <= i < less.len() implies !((#[trigger] less[i]) is Rest) by {
            assert(less[i] == pieces[i]);
        }
        prefixes_are_named(less);
        let fewer = less.map_values(|piece: Piece| pattern_laws::meaning(piece));
        let short = less.map_values(
            |piece: Piece|
                match piece {
                    Piece::Text(text) => text,
                    _ => seq!['*'],
                },
        );
        assert(segs.drop_last() =~= fewer);
        assert(names.drop_last() =~= short);
        assert(segs.last() == pattern_laws::meaning(pieces.last()));
        if less.len() == 0 {
            assert(table::segments_text(fewer) =~= Seq::<char>::empty());
            assert(pattern_laws::slashed(short) =~= Seq::<char>::empty());
        }
    }
}

/// A missing rule is the router's own fault, and a method without a rule is denied by policy;
/// every other denial is the request's fault.
pub proof fn kinds_are_exact(error: ResolveError)
    ensures
        error.category() is Internal <==> error is InvalidRuleId,
        error.category() is PolicyDenied <==> error is MethodNotConfigured,
        error.category() is InvalidInput <==> !(error is InvalidRuleId) && !(
        error is MethodNotConfigured),
{
}

/// What a client is told does not tell the forms, comparisons and probes apart.
pub proof fn responses_name_no_form(
    a: StructuralClass,
    b: StructuralClass,
    probe: &'static str,
    other: &'static str,
)
    ensures
        ResolveError::StructuralForm(a).response() == ResolveError::StructuralForm(b).response(),
        ResolveError::StructuralForm(a).response() == ResolveError::CaseFoldRuleChange.response(),
        ResolveError::StructuralForm(a).response() == ResolveError::DecodeRuleChange.response(),
        ResolveError::StructuralForm(a).response() == ResolveError::Probe(probe).response(),
        ResolveError::Probe(probe).response() == ResolveError::Probe(other).response(),
        ResolveError::NonCanonical(a).response() == ResolveError::NonCanonical(b).response(),
        ResolveError::NonCanonical(a).response() == ResolveError::NonCanonicalEscape.response(),
{
}

/// Every denial has one reason, but that a method has no rule is none.
pub proof fn reasons_are_told_apart(a: DenyReason, b: DenyReason)
    ensures
        a.as_error() == b.as_error() ==> a == b,
        !(a.as_error() is MethodNotConfigured),
        a is InvalidRuleId <==> a.as_error() is InvalidRuleId,
        a is InvalidPathInput <==> a.as_error() is InvalidPathInput,
        a is CaseFoldRelocation <==> a.as_error() is CaseFoldRuleChange,
        a is DecodeRelocation <==> a.as_error() is DecodeRuleChange,
        a is NonCanonicalEscape <==> a.as_error() is NonCanonicalEscape,
        a is TooLong <==> a.as_error() is TooLong,
        (a matches DenyReason::StructuralForm(class) ==> a.as_error()
            == ResolveError::StructuralForm(class)),
        (a matches DenyReason::NonCanonical(class) ==> a.as_error() == ResolveError::NonCanonical(
            class,
        )),
        (a matches DenyReason::Probe(name) ==> a.as_error() == ResolveError::Probe(name)),
{
}

} // verus!
