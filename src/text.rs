use vstd::prelude::*;

verus! {

/// The characters that `String::from_utf8_lossy` makes of a byte sequence.
pub uninterp spec fn lossy_utf8(b: Seq<u8>) -> Seq<char>;

/// Each byte read as the character with that code.
pub open spec fn ascii_chars(b: Seq<u8>) -> Seq<char> {
    Seq::new(b.len(), |i: int| b[i] as char)
}

/// Every byte is below 128.
pub open spec fn is_ascii_bytes(b: Seq<u8>) -> bool {
    forall|i: int| 0 <= i < b.len() ==> #[trigger] b[i] < 128
}

/// Relies on `String::from_utf8_lossy`: invalid sequences become U+FFFD, and
/// valid UTF-8 (ASCII in particular) is taken unchanged.
#[verifier::external_body]
pub(crate) fn utf8_lossy(b: &[u8]) -> (r: String)
    ensures
        r@ == lossy_utf8(b@),
        is_ascii_bytes(b@) ==> r@ == ascii_chars(b@),
{
    String::from_utf8_lossy(b).into_owned()
}

/// Relies on std's `String + &str` (`Add` for `String`): `a` followed by `b`.
#[verifier::external_body]
pub(crate) fn string_concat(a: String, b: &str) -> (r: String)
    ensures
        r@ == a@ + b@,
{
    a + b
}

/// The hexadecimal digit for `d` (below 16), in the chosen case.
pub open spec fn hex_digit(d: u8, upper: bool) -> u8 {
    if d < 10 {
        (48 + d) as u8
    } else if upper {
        (55 + d) as u8
    } else {
        (87 + d) as u8
    }
}

/// Two hexadecimal digits per byte, high nibble first.
pub open spec fn hex_of(b: Seq<u8>, upper: bool) -> Seq<u8>
    decreases b.len(),
{
    if b.len() == 0 {
        Seq::empty()
    } else {
        hex_of(b.drop_last(), upper) + seq![hex_digit(b.last() / 16, upper), hex_digit(b.last() % 16, upper)]
    }
}

/// Relies on `hex::encode`: two lower-case digits per byte, high nibble first.
#[verifier::external_body]
pub(crate) fn hex_lower(b: &[u8]) -> (r: Vec<u8>)
    ensures
        r@ == hex_of(b@, false),
{
    hex::encode(b).into_bytes()
}

/// Relies on `hex::encode_upper`: two upper-case digits per byte, high nibble first.
#[verifier::external_body]
pub(crate) fn hex_upper(b: &[u8]) -> (r: Vec<u8>)
    ensures
        r@ == hex_of(b@, true),
{
    hex::encode_upper(b).into_bytes()
}

proof fn lemma_hex_ascii(b: Seq<u8>, upper: bool)
    ensures
        is_ascii_bytes(hex_of(b, upper)),
        hex_of(b, upper).len() == 2 * b.len(),
    decreases b.len(),
{
    if b.len() > 0 {
        lemma_hex_ascii(b.drop_last(), upper);
        let h = hex_of(b, upper);
        let d = hex_of(b.drop_last(), upper);
        assert forall|i: int| 0 <= i < h.len() implies #[trigger] h[i] < 128 by {
            if i < d.len() {
                assert(h[i] == d[i]);
            }
        }
    }
}

/// Lower-case hexadecimal text of a byte string, two digits per byte.
pub fn to_hex(b: &[u8]) -> (r: String)
    ensures
        r@ == ascii_chars(hex_of(b@, false)),
        r@.len() == 2 * b@.len(),
{
    let digits = hex_lower(b);
    proof {
        lemma_hex_ascii(b@, false);
    }
    utf8_lossy(digits.as_slice())
}

} // verus!
