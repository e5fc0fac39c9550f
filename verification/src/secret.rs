//! Fresh secrets for signing the services' tokens, made from random version 4 UUIDs.

use uuid::Uuid;
use vstd::prelude::*;

verus! {

/// The lower-case hexadecimal digit of `n`, for `0 <= n < 16`.
pub open spec fn hex_digit(n: int) -> char {
    seq!['0', '1', '2', '3', '4', '5', '6', '7', '8', '9', 'a', 'b', 'c', 'd', 'e', 'f'][n]
}

/// `bytes` in lower-case hexadecimal, two digits per byte, high nibble first.
pub open spec fn lower_hex(bytes: Seq<u8>) -> Seq<char> {
    Seq::new(
        2 * bytes.len(),
        |i: int|
            hex_digit(
                if i % 2 == 0 {
                    bytes[i / 2] / 16
                } else {
                    bytes[i / 2] % 16
                } as int,
            ),
    )
}

/// The sixteen bytes of a random UUID: version 4 and the RFC 4122 variant.
pub open spec fn is_v4_bytes(b: Seq<u8>) -> bool {
    &&& b.len() == 16
    &&& b[6] / 16 == 4
    &&& b[8] / 64 == 2
}

/// The bytes of a new random UUID, by `uuid::Uuid::new_v4` and `Uuid::into_bytes`.
/// The contract claims only what that source fixes of every outcome: the version nibble is 4
/// and the two variant bits are `10`; the other bits come from the system's random source,
/// and the call panics where that source fails.
#[verifier::external_body]
fn random_v4_bytes() -> (b: [u8; 16])
    ensures
        is_v4_bytes(b@),
{
    Uuid::new_v4().into_bytes()
}

/// The simple text form of the UUID with the bytes `bytes`, by `uuid::Uuid::from_bytes`,
/// `Uuid::simple` and its `Display`: the contract claims it is the 32 lower-case hexadecimal
/// digits of the bytes in order.
#[verifier::external_body]
fn uuid_simple_text(bytes: [u8; 16]) -> (s: String)
    ensures
        s@ == lower_hex(bytes@),
{
    Uuid::from_bytes(bytes).simple().to_string()
}

/// A secret as the launcher makes it: `bee-jwt-` and the simple forms of two random UUIDs.
pub open spec fn is_generated_secret(s: Seq<char>) -> bool {
    exists|b1: Seq<u8>, b2: Seq<u8>|
        #![trigger lower_hex(b1), lower_hex(b2)]
        is_v4_bytes(b1) && is_v4_bytes(b2) && s == "bee-jwt-"@ + lower_hex(b1) + lower_hex(b2)
}

/// The secret made from the bytes of two UUIDs: `bee-jwt-` and their simple forms.
pub fn secret_from_uuid_bytes(a: [u8; 16], b: [u8; 16]) -> (s: String)
    ensures
        s@ == "bee-jwt-"@ + lower_hex(a@) + lower_hex(b@),
{
    let mut s = String::from_str("bee-jwt-");
    let ha = uuid_simple_text(a);
    let hb = uuid_simple_text(b);
    s.append(ha.as_str());
    s.append(hb.as_str());
    s
}

/// Makes a fresh secret from two random UUIDs.
pub fn generate_jwt_secret() -> (s: String)
    ensures
        is_generated_secret(s@),
{
    let a = random_v4_bytes();
    let b = random_v4_bytes();
    let s = secret_from_uuid_bytes(a, b);
    assert(s@ == "bee-jwt-"@ + lower_hex(a@) + lower_hex(b@));
    s
}

} // verus!
