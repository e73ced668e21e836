//! HTTP methods as the outside crate `http` represents them.

use vstd::prelude::*;
use vstd::string::*;

verus! {

/// `http::Method`, opaque: a method is compared, copied and named, never taken apart.
#[verifier::external_type_specification]
#[verifier::external_body]
pub struct ExMethod(http::Method);

/// `<http::Method as PartialEq>::eq`, a derived comparison of the representation: it
/// tells exactly whether two methods are the same value.
pub assume_specification[ <http::Method as PartialEq>::eq ](
    a: &http::Method,
    b: &http::Method,
) -> (same: bool)
    ensures
        same == (*a == *b),
;

/// `<http::Method as Clone>::clone`, a derived copy: the same value again.
pub assume_specification[ <http::Method as Clone>::clone ](a: &http::Method) -> (copy: http::Method)
    ensures
        copy == *a,
;

/// The method that a name parses to, `None` where it is not a method name.
pub uninterp spec fn parsed_method(name: Seq<u8>) -> Option<http::Method>;

/// A character of a method name: a letter, a digit, or one of fifteen marks.
pub open spec fn name_byte(b: u8) -> bool {
    ||| 0x30 <= b <= 0x39
    ||| 0x41 <= b <= 0x5A
    ||| 0x61 <= b <= 0x7A
    ||| b == 0x21 || b == 0x23 || b == 0x24 || b == 0x25 || b == 0x26 || b == 0x27
    ||| b == 0x2A || b == 0x2B || b == 0x2D || b == 0x2E
    ||| b == 0x5E || b == 0x5F || b == 0x60 || b == 0x7C || b == 0x7E
}

/// Whether the bytes are a method name.
pub open spec fn is_name(name: Seq<u8>) -> bool {
    name.len() > 0 && forall|i: int| 0 <= i < name.len() ==> name_byte(#[trigger] name[i])
}

/// `http::Method::from_bytes`. What is believed of it: the result depends on the name
/// alone, exactly the names of one or more name characters parse, and the text of the method
/// is the name that it was parsed from.
#[verifier::external_body]
fn parse_method(name: &[u8]) -> (method: Option<http::Method>)
    ensures
        method == parsed_method(name@),
        method is Some == is_name(name@),
        method matches Some(m) ==> vstd::utf8::encode_utf8(method_text(m)) == name@,
{
    http::Method::from_bytes(name).ok()
}

/// The text of a method.
pub uninterp spec fn method_text(method: http::Method) -> Seq<char>;

/// `http::Method::as_str`, copied. What is believed of it: the text depends on the
/// method alone.
#[verifier::external_body]
pub(crate) fn method_name(method: &http::Method) -> (text: String)
    ensures
        text@ == method_text(*method),
{
    method.as_str().to_owned()
}

/// The names of the methods that HTTP itself defines, and PATCH.
pub open spec fn standard_names() -> Seq<Seq<char>> {
    seq!["GET"@, "HEAD"@, "POST"@, "PUT"@, "DELETE"@, "CONNECT"@, "OPTIONS"@, "TRACE"@, "PATCH"@]
}

/// The methods of these names.
pub open spec fn standard() -> Seq<http::Method> {
    standard_names().map_values(
        |name: Seq<char>| parsed_method(vstd::utf8::encode_utf8(name))->Some_0,
    )
}

/// The methods that HTTP itself defines, and PATCH.
pub fn standard_methods() -> (methods: Vec<http::Method>)
    ensures
        methods@ == standard(),
{
    let mut methods: Vec<http::Method> = Vec::new();
    let names: [&str; 9] = [
        "GET",
        "HEAD",
        "POST",
        "PUT",
        "DELETE",
        "CONNECT",
        "OPTIONS",
        "TRACE",
        "PATCH",
    ];
    let mut i: usize = 0;
    while i < 9
        invariant
            i <= 9,
            names@.len() == 9,
            forall|j: int| 0 <= j < 9 ==> (#[trigger] names@[j])@ == standard_names()[j],
            methods@ == standard().take(i as int),
        decreases 9 - i,
    {
        proof {
            reveal_strlit("GET");
            reveal_strlit("HEAD");
            reveal_strlit("POST");
            reveal_strlit("PUT");
            reveal_strlit("DELETE");
            reveal_strlit("CONNECT");
            reveal_strlit("OPTIONS");
            reveal_strlit("TRACE");
            reveal_strlit("PATCH");
            assert(names@[i as int]@ == standard_names()[i as int]);
            vstd::utf8::is_ascii_chars_encode_utf8(names@[i as int]@);
        }
        let name: &[u8] = names[i].as_bytes();
        if let Some(method) = parse_method(name) {
            methods.push(method);
        }
        assert(methods@ =~= standard().take(i + 1));
        i = i + 1;
    }
    assert(methods@ =~= standard());
    methods
}

} // verus!
