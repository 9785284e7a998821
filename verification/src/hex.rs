//! Lowercase hexadecimal rendering of byte strings.

use vstd::prelude::*;
use vstd::string::*;

verus! {

/// The digit that stands for `value`, for values below sixteen.
pub open spec fn hex_digit(value: int) -> char {
    "0123456789abcdef"@[value]
}

/// Whether `c` is one of `0`-`9` or `a`-`f`.
pub open spec fn is_lower_hex(c: char) -> bool {
    ('0' <= c && c <= '9') || ('a' <= c && c <= 'f')
}

/// The text that renders `bytes`: two digits for each byte, the digit of
/// the upper four bits first.
pub open spec fn hex_encode(bytes: Seq<u8>) -> Seq<char> {
    Seq::new(
        (2 * bytes.len()) as nat,
        |i: int|
            if i % 2 == 0 {
                hex_digit(bytes[i / 2] as int / 16)
            } else {
                hex_digit(bytes[i / 2] as int % 16)
            },
    )
}

/// The sixteen digits are lowercase hexadecimal characters, and no two of
/// them are equal.
pub proof fn lemma_hex_digits(a: int, b: int)
    requires
        0 <= a < 16,
        0 <= b < 16,
    ensures
        is_lower_hex(hex_digit(a)),
        hex_digit(a) == hex_digit(b) ==> a == b,
{
    reveal_strlit("0123456789abcdef");
}

/// A rendering is twice as long as what it renders and holds lowercase
/// hexadecimal characters only.
pub proof fn lemma_hex_encode_shape(bytes: Seq<u8>)
    ensures
        hex_encode(bytes).len() == 2 * bytes.len(),
        forall|i: int| 0 <= i < 2 * bytes.len() ==> is_lower_hex(#[trigger] hex_encode(bytes)[i]),
{
    assert forall|i: int| 0 <= i < 2 * bytes.len() implies is_lower_hex(
        #[trigger] hex_encode(bytes)[i],
    ) by {
        let b: int = bytes[i / 2] as int;
        let d: int = if i % 2 == 0 {
            b / 16
        } else {
            b % 16
        };
        assert(0 <= d < 16);
        assert(hex_encode(bytes)[i] == hex_digit(d));
        lemma_hex_digits(d, d);
    }
}

/// Different byte strings have different renderings.
pub proof fn lemma_hex_encode_injective(a: Seq<u8>, b: Seq<u8>)
    requires
        hex_encode(a) == hex_encode(b),
    ensures
        a == b,
{
    assert(hex_encode(a).len() == 2 * a.len());
    assert(hex_encode(b).len() == 2 * b.len());
    assert forall|k: int| 0 <= k < a.len() implies a[k] == b[k] by {
        let x: int = a[k] as int;
        let y: int = b[k] as int;
        assert(hex_encode(a)[2 * k] == hex_digit(x / 16));
        assert(hex_encode(b)[2 * k] == hex_digit(y / 16));
        assert(hex_encode(a)[2 * k + 1] == hex_digit(x % 16));
        assert(hex_encode(b)[2 * k + 1] == hex_digit(y % 16));
        lemma_hex_digits(x / 16, y / 16);
        lemma_hex_digits(x % 16, y % 16);
    }
    assert(a =~= b);
}

/// Renders `bytes` in lowercase hexadecimal.
pub fn to_hex(bytes: &[u8]) -> (text: String)
    ensures
        text@ == hex_encode(bytes@),
{
    let digits: &str = "0123456789abcdef";
    proof {
        reveal_strlit("0123456789abcdef");
    }
    let mut text: String = String::new();
    let mut i: usize = 0;
    while i < bytes.len()
        invariant
            i <= bytes.len(),
            digits@ == "0123456789abcdef"@,
            digits@.len() == 16,
            digits.is_ascii(),
            text@ == hex_encode(bytes@.take(i as int)),
        decreases bytes.len() - i,
    {
        let byte: u8 = bytes[i];
        let upper: usize = (byte / 16) as usize;
        let lower: usize = (byte % 16) as usize;
        text.append(digits.substring_ascii(upper, upper + 1));
        text.append(digits.substring_ascii(lower, lower + 1));
        i += 1;
        assert(text@ =~= hex_encode(bytes@.take(i as int)));
    }
    assert(bytes@.take(bytes.len() as int) =~= bytes@);
    text
}

} // verus!
