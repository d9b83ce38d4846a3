//! String helpers over the UTF-8 view of `str`: byte-exact equality and
//! label validation shared by the stages' output namespaces.

use vstd::prelude::*;
use vstd::string::*;
use vstd::utf8::*;

verus! {

/// Two strings are equal exactly when their characters are.
pub fn str_eq(a: &str, b: &str) -> (r: bool)
    ensures
        r == (a@ == b@),
{
    let x = a.as_bytes();
    let y = b.as_bytes();
    proof {
        encode_utf8_decode_utf8(a@);
        encode_utf8_decode_utf8(b@);
    }
    if x.len() != y.len() {
        return false;
    }
    let mut i: usize = 0;
    while i < x.len()
        invariant
            x@.len() == y@.len(),
            i <= x@.len(),
            x@ == a.spec_bytes(),
            y@ == b.spec_bytes(),
            forall|j: int| 0 <= j < i ==> x@[j] == y@[j],
        decreases x@.len() - i,
    {
        if x[i] != y[i] {
            return false;
        }
        i = i + 1;
    }
    assert(x@ =~= y@);
    true
}

/// A label that cannot name output files.
#[derive(Clone, Copy, Debug, PartialEq, Eq)]
pub struct InvalidLabel;

/// A character allowed in an output-namespace label: ASCII lower-case
/// letter, digit, underscore, and (where `dash` holds) hyphen.
pub open spec fn label_char(c: char, dash: bool) -> bool {
    ('a' <= c && c <= 'z') || ('0' <= c && c <= '9') || c == '_' || (dash && c == '-')
}

/// A non-empty label made only of allowed characters.
pub open spec fn valid_label(s: Seq<char>, dash: bool) -> bool {
    s.len() > 0 && forall|i: int| 0 <= i < s.len() ==> #[trigger] label_char(s[i], dash)
}

fn label_byte(b: u8, dash: bool) -> (r: bool)
    ensures
        r == label_char(b as char, dash),
{
    (b >= 97 && b <= 122) || (b >= 48 && b <= 57) || b == 95 || (dash && b == 45)
}

/// Whether `label` is a valid output-namespace label.
pub fn is_valid_label(label: &str, dash: bool) -> (r: bool)
    ensures
        r == valid_label(label@, dash),
{
    if label.is_empty() {
        return false;
    }
    if !label.is_ascii() {
        proof {
            let c = label@;
            let i = choose|i: int| 0 <= i < c.len() && !('\0' <= #[trigger] c[i] <= '\u{7f}');
            assert(!label_char(c[i], dash));
        }
        return false;
    }
    let bytes = label.as_bytes();
    proof {
        is_ascii_chars_encode_utf8(label@);
    }
    let mut i: usize = 0;
    while i < bytes.len()
        invariant
            i <= bytes@.len(),
            bytes@ == label.spec_bytes(),
            bytes@.len() == label@.len(),
            is_ascii_chars(label@),
            forall|j: int| 0 <= j < label@.len() ==> label@[j] as u8 == bytes@[j],
            forall|j: int| 0 <= j < i ==> #[trigger] label_char(label@[j], dash),
        decreases bytes@.len() - i,
    {
        let b = bytes[i];
        proof {
            let c = label@[i as int];
            assert('\0' <= c <= '\u{7f}');
            assert(c as u8 == b);
            assert((b as char) == c);
        }
        if !label_byte(b, dash) {
            return false;
        }
        i = i + 1;
    }
    true
}

/// The concatenation of string pieces.
pub fn join(parts: &[&str]) -> (r: String)
    ensures
        r@ == join_spec(parts@),
{
    let mut s = String::new();
    let mut i: usize = 0;
    while i < parts.len()
        invariant
            i <= parts@.len(),
            s@ == join_spec(parts@.subrange(0, i as int)),
        decreases parts@.len() - i,
    {
        s.append(parts[i]);
        proof {
            let pre = parts@.subrange(0, i + 1);
            assert(pre.drop_last() =~= parts@.subrange(0, i as int));
        }
        i = i + 1;
    }
    assert(parts@.subrange(0, parts@.len() as int) =~= parts@);
    s
}

/// The characters of the pieces, in order.
pub open spec fn join_spec(parts: Seq<&str>) -> Seq<char>
    decreases parts.len(),
{
    if parts.len() == 0 {
        Seq::empty()
    } else {
        join_spec(parts.drop_last()) + parts.last()@
    }
}

} // verus!
