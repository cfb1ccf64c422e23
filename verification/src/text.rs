//! Texts and their UTF-8 bytes.
//!
//! A line is assembled as bytes. The pieces it is made of are the UTF-8 form
//! of texts and runs of ASCII, so the whole is UTF-8 again and can be handed
//! out as a `String`.

use vstd::prelude::*;
use vstd::utf8::*;

verus! {

/// Every byte of `bytes` is an ASCII byte.
pub open spec fn is_ascii_bytes(bytes: Seq<u8>) -> bool {
    forall|i: int| 0 <= i < bytes.len() ==> #[trigger] bytes[i] <= 0x7f
}

/// A run of ASCII bytes is valid UTF-8.
pub proof fn lemma_ascii_is_utf8(bytes: Seq<u8>)
    requires
        is_ascii_bytes(bytes),
    ensures
        valid_utf8(bytes),
{
    assert(bytes.subrange(0, 0) =~= Seq::<u8>::empty());
    assert(partial_valid_utf8(bytes, 0));
    assert forall|i: int| 0 <= i < bytes.len() implies #[trigger] is_leading_byte_width_1(
        bytes[i],
    ) by {}
    partial_valid_utf8_extend_ascii_block(bytes, 0, bytes.len() as int);
    assert(bytes.subrange(0, bytes.len() as int) =~= bytes);
}

/// A valid UTF-8 sequence is its first character followed by a valid UTF-8
/// sequence. The character is one ASCII byte, or two to four bytes that all
/// lie beyond ASCII, and taken alone it is valid UTF-8.
pub proof fn lemma_first_scalar_is_utf8(bytes: Seq<u8>)
    requires
        valid_utf8(bytes),
        bytes.len() > 0,
    ensures
        valid_utf8(take_first_scalar(bytes)),
        valid_utf8(pop_first_scalar(bytes)),
        bytes == take_first_scalar(bytes) + pop_first_scalar(bytes),
        1 <= take_first_scalar(bytes).len() <= 4,
        take_first_scalar(bytes).len() == 1 ==> take_first_scalar(bytes)[0] <= 0x7f,
        take_first_scalar(bytes).len() > 1 ==> forall|i: int|
            0 <= i < take_first_scalar(bytes).len() ==> #[trigger] take_first_scalar(bytes)[i]
                >= 0x80,
{
    reveal_with_fuel(valid_utf8, 2);
    let head = take_first_scalar(bytes);
    assert(bytes =~= head + pop_first_scalar(bytes));
    assert(pop_first_scalar(head) =~= Seq::<u8>::empty());
}

/// `String::from_utf8`: it makes a `String` of `bytes` where they are valid
/// UTF-8, and that string is then made of exactly these bytes; it refuses
/// them where they are not.
#[verifier::external_body]
fn string_from_utf8(bytes: Vec<u8>) -> (text: Option<String>)
    ensures
        text is Some <==> valid_utf8(bytes@),
        text matches Some(s) ==> encode_utf8(s@) == bytes@,
{
    String::from_utf8(bytes).ok()
}

/// The text that the UTF-8 bytes `bytes` encode.
pub(crate) fn text_of(bytes: Vec<u8>) -> (text: String)
    requires
        valid_utf8(bytes@),
    ensures
        encode_utf8(text@) == bytes@,
        text@ == decode_utf8(bytes@),
{
    let text = string_from_utf8(bytes).unwrap();
    proof {
        encode_utf8_decode_utf8(text@);
    }
    text
}

/// Appends `bytes` to `w` as they are, and returns their number.
pub(crate) fn write_bytes(w: &mut Vec<u8>, bytes: &[u8]) -> (written: usize)
    ensures
        final(w)@ == old(w)@ + bytes@,
        written == bytes@.len(),
{
    let mut k: usize = 0;
    while k < bytes.len()
        invariant
            k <= bytes@.len(),
            w@ == old(w)@ + bytes@.take(k as int),
        decreases bytes@.len() - k,
    {
        w.push(bytes[k]);
        proof {
            assert(bytes@.take(k + 1) =~= bytes@.take(k as int).push(bytes@[k as int]));
        }
        k += 1;
    }
    proof {
        assert(bytes@.take(k as int) =~= bytes@);
    }
    bytes.len()
}

} // verus!
