//! The calls that leave this crate. Nothing in this file is proved: each
//! contract states what the called function is documented to do, and the
//! rest of the crate is verified against these statements.

use vstd::prelude::*;
use vstd::utf8::{decode_utf8, valid_utf8};

verus! {

/// The error of the `base64` crate's decoder. Its contents are not read here.
#[verifier::external_type_specification]
#[verifier::external_body]
pub struct ExBase64DecodeError(base64::DecodeError);

/// The text that `base64::encode` produces for `bytes` (standard alphabet,
/// padded).
pub uninterp spec fn base64_text(bytes: Seq<u8>) -> Seq<char>;

/// The bytes that `base64::decode` reads from `text`, or `None` where it
/// rejects `text`.
pub uninterp spec fn base64_bytes(text: Seq<char>) -> Option<Seq<u8>>;

/// Whether `len` bytes can be handed to the encoder: the length of the text,
/// four characters for every three bytes, has to fit in an allocation.
pub open spec fn base64_encodable(len: nat) -> bool {
    4 * (len / 3) + 4 <= isize::MAX
}

/// Calls `base64::encode`. The result is a function of the bytes alone, named
/// `base64_text`. The call panics where the length of the text overflows,
/// which `requires` leaves out.
#[allow(deprecated)]
#[verifier::external_body]
pub(crate) fn base64_encode(bytes: &[u8]) -> (text: String)
    requires
        base64_encodable(bytes@.len()),
    ensures
        text@ == base64_text(bytes@),
{
    base64::encode(bytes)
}

/// Calls `base64::decode`. Whether it accepts `text`, and the bytes it then
/// returns, are a function of the text alone, named `base64_bytes`.
#[allow(deprecated)]
#[verifier::external_body]
pub(crate) fn base64_decode(text: &str) -> (bytes: Result<Vec<u8>, base64::DecodeError>)
    ensures
        match bytes {
            Ok(b) => base64_bytes(text@) == Some(b@),
            Err(_) => base64_bytes(text@) is None,
        },
{
    base64::decode(text)
}

/// Calls `rand::thread_rng` and `Rng::gen` for one `i32`. Nothing is known
/// of the value: two calls may differ. The generator is seeded by the system
/// and panics where the system gives it no seed.
#[verifier::external_body]
pub(crate) fn random_i32() -> i32 {
    rand::Rng::gen(&mut rand::thread_rng())
}

/// The decimal digit of `d`, a number below ten.
pub open spec fn digit(d: nat) -> char {
    (0x30 + d) as char
}

/// The decimal digits of `n`, without leading zeros.
pub open spec fn digits(n: nat) -> Seq<char>
    decreases n,
{
    if n < 10 {
        seq![digit(n)]
    } else {
        digits(n / 10).push(digit(n % 10))
    }
}

/// `v` in decimal, with a minus sign in front where it is negative.
pub open spec fn decimal(v: int) -> Seq<char> {
    if v < 0 {
        seq!['-'] + digits((-v) as nat)
    } else {
        digits(v as nat)
    }
}

/// Calls `i32::to_string`, which writes the number in decimal, with a minus
/// sign in front where it is negative.
#[verifier::external_body]
pub(crate) fn decimal_text(v: i32) -> (text: String)
    ensures
        text@ == decimal(v as int),
{
    v.to_string()
}

/// Calls `String::from_utf8`, which accepts exactly the valid UTF-8 byte
/// sequences and then returns the text that they encode.
#[verifier::external_body]
pub(crate) fn text_from_utf8(bytes: Vec<u8>) -> (text: Option<String>)
    ensures
        match text {
            Some(s) => valid_utf8(bytes@) && s@ == decode_utf8(bytes@),
            None => !valid_utf8(bytes@),
        },
{
    String::from_utf8(bytes).ok()
}

} // verus!
