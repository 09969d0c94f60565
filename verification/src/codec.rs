//! Base64 (the `base64` crate's standard alphabet, with padding), and the package key.
use base64::Engine;
use vstd::utf8::encode_utf8;
use vstd::prelude::*;

use crate::error::{joined, ErrorCode, RTError};

verus! {

/// The message of the error with which the standard Base64 engine refuses `text`.
pub uninterp spec fn base64_error_message(text: Seq<u8>) -> Seq<char>;

/// The character of the standard Base64 alphabet for the 6-bit value `v`.
pub open spec fn b64_digit(v: int) -> char {
    if v < 26 {
        (65 + v) as char
    } else if v < 52 {
        (97 + v - 26) as char
    } else if v < 62 {
        (48 + v - 52) as char
    } else if v == 62 {
        '+'
    } else {
        '/'
    }
}

/// The standard Base64 encoding of `b`: each group of three bytes becomes four characters of
/// six bits each; a last group of one or two bytes is padded with `=`.
pub open spec fn base64_encoded(b: Seq<u8>) -> Seq<char>
    decreases b.len(),
{
    if b.len() == 0 {
        seq![]
    } else if b.len() == 1 {
        seq![b64_digit(b[0] as int / 4), b64_digit((b[0] as int % 4) * 16), '=', '=']
    } else if b.len() == 2 {
        seq![
            b64_digit(b[0] as int / 4),
            b64_digit((b[0] as int % 4) * 16 + b[1] as int / 16),
            b64_digit((b[1] as int % 16) * 4),
            '=',
        ]
    } else {
        seq![
            b64_digit(b[0] as int / 4),
            b64_digit((b[0] as int % 4) * 16 + b[1] as int / 16),
            b64_digit((b[1] as int % 16) * 4 + b[2] as int / 64),
            b64_digit(b[2] as int % 64),
        ] + base64_encoded(b.skip(3))
    }
}

/// The length of the standard (padded) Base64 encoding of `n` bytes.
pub open spec fn encoded_len(n: nat) -> nat {
    if n % 3 == 0 {
        n / 3 * 4
    } else {
        n / 3 * 4 + 4
    }
}

/// The bytes of the standard Base64 text of `b`.
pub open spec fn base64_text(b: Seq<u8>) -> Seq<u8> {
    encode_utf8(base64_encoded(b))
}

/// What the standard Base64 engine decodes `text` to: the bytes whose encoding it is, or `None`
/// where it is no encoding (the engine requires canonical padding and no trailing bits).
pub open spec fn base64_decoded(text: Seq<u8>) -> Option<Seq<u8>> {
    if exists|b: Seq<u8>| #[trigger] base64_text(b) == text {
        Some(choose|b: Seq<u8>| #[trigger] base64_text(b) == text)
    } else {
        None
    }
}

/// `base64::engine::general_purpose::STANDARD.decode`, its error shown as text (`Display`).
/// Claimed: it succeeds exactly on the standard padded encodings, with the bytes encoded; a
/// refusal's text is `base64_error_message(text)`, which is not stated.
#[verifier::external_body]
fn base64_decode(text: &[u8]) -> (r: Result<Vec<u8>, String>)
    ensures
        match r {
            Ok(v) => base64_text(v@) == text@,
            Err(m) => (forall|b: Seq<u8>| #[trigger] base64_text(b) != text@) && m@
                == base64_error_message(text@),
        },
{
    match base64::engine::general_purpose::STANDARD.decode(text) {
        Ok(v) => Ok(v),
        Err(e) => Err(e.to_string()),
    }
}

/// Text that decodes, decodes to the one byte string whose encoding it is.
proof fn lemma_decoded_unique(text: Seq<u8>, b: Seq<u8>)
    requires
        base64_text(b) == text,
    ensures
        base64_decoded(text) == Some(b),
{
    let c = choose|c: Seq<u8>| #[trigger] base64_text(c) == text;
    vstd::utf8::encode_utf8_decode_utf8(base64_encoded(b));
    vstd::utf8::encode_utf8_decode_utf8(base64_encoded(c));
    lemma_base64_injective(c, b);
}

/// `base64::engine::general_purpose::STANDARD.encode`. Claimed: the result is the standard
/// padded Base64 encoding, `base64_encoded(bytes)`. It panics where the encoded length overflows `usize`, which the
/// `requires` leaves out.
#[verifier::external_body]
pub(crate) fn base64_encode(bytes: &[u8]) -> (r: String)
    requires
        encoded_len(bytes@.len()) <= usize::MAX,
    ensures
        r@ == base64_encoded(bytes@),
{
    base64::engine::general_purpose::STANDARD.encode(bytes)
}

/// The encoding of `n` bytes is `encoded_len(n)` characters long.
pub proof fn lemma_base64_len(b: Seq<u8>)
    ensures
        base64_encoded(b).len() == encoded_len(b.len()),
    decreases b.len(),
{
    if b.len() >= 3 {
        lemma_base64_len(b.skip(3));
    }
}

/// The message that a refused package key gets, before the reason.
pub open spec fn key_fault_prefix() -> Seq<char> {
    "AES Key is fault! please enter a real AES Key!\nmessage: "@
}

/// The AES-256 key written in Base64 as `encoded`: refused (code `AesKeyHasWrong`) where it does
/// not decode, with the decoder's message, or where it is not 32 bytes long.
pub fn decode_aes_key(encoded: &str) -> (r: Result<[u8; 32], RTError>)
    ensures
        match base64_decoded(encode_utf8(encoded@)) {
            None => r matches Err(e) && e.code == ErrorCode::AesKeyHasWrong && e.msg@
                == key_fault_prefix() + base64_error_message(encode_utf8(encoded@)),
            Some(b) => if b.len() != 32 {
                r matches Err(e) && e.code == ErrorCode::AesKeyHasWrong && e.msg@
                    == key_fault_prefix() + "wrong key length"@
            } else {
                r matches Ok(k) && k@ == b
            },
        },
{
    match base64_decode(encoded.as_bytes()) {
        Err(e) => {
            let prefix = "AES Key is fault! please enter a real AES Key!\nmessage: ";
            let msg = joined(prefix, e.as_str());
            Err(RTError { msg, code: ErrorCode::AesKeyHasWrong })
        },
        Ok(b) => {
            proof {
                lemma_decoded_unique(encode_utf8(encoded@), b@);
            }
            if b.len() != 32 {
                let msg = joined(
                    "AES Key is fault! please enter a real AES Key!\nmessage: ",
                    "wrong key length",
                );
                Err(RTError { msg, code: ErrorCode::AesKeyHasWrong })
            } else {
                let k = [
                    b[0],
                    b[1],
                    b[2],
                    b[3],
                    b[4],
                    b[5],
                    b[6],
                    b[7],
                    b[8],
                    b[9],
                    b[10],
                    b[11],
                    b[12],
                    b[13],
                    b[14],
                    b[15],
                    b[16],
                    b[17],
                    b[18],
                    b[19],
                    b[20],
                    b[21],
                    b[22],
                    b[23],
                    b[24],
                    b[25],
                    b[26],
                    b[27],
                    b[28],
                    b[29],
                    b[30],
                    b[31],
                ];
                assert(k@ =~= b@);
                Ok(k)
            }
        },
    }
}

proof fn lemma_place(hi1: int, lo1: int, hi2: int, lo2: int, m: int)
    by (nonlinear_arith)
    requires
        m > 0,
        0 <= lo1 < m,
        0 <= lo2 < m,
        hi1 * m + lo1 == hi2 * m + lo2,
    ensures
        hi1 == hi2,
        lo1 == lo2,
{
}

proof fn lemma_digit(v: int, w: int)
    requires
        0 <= v < 64,
        0 <= w < 64,
    ensures
        b64_digit(v) == b64_digit(w) ==> v == w,
        b64_digit(v) != '=',
{
}

/// Different bytes have different encodings.
pub proof fn lemma_base64_injective(a: Seq<u8>, b: Seq<u8>)
    requires
        base64_encoded(a) == base64_encoded(b),
    ensures
        a == b,
    decreases a.len(),
{
    let ea = base64_encoded(a);
    let eb = base64_encoded(b);
    lemma_base64_len(a);
    lemma_base64_len(b);
    if a.len() == 0 || b.len() == 0 {
        assert(a.len() == 0 && b.len() == 0);
        assert(a =~= b);
        return;
    }
    let (a0, b0) = (a[0] as int, b[0] as int);
    lemma_digit(a0 / 4, b0 / 4);
    assert(ea[0] == b64_digit(a0 / 4));
    assert(eb[0] == b64_digit(b0 / 4));
    assert(a0 / 4 == b0 / 4);
    if a.len() == 1 {
        if b.len() >= 2 {
            let b1 = b[1] as int;
            lemma_digit((b1 % 16) * 4 + (if b.len() >= 3 { b[2] as int / 64 } else { 0 }), 0);
            assert(eb[2] != '=');
            assert(false);
        }
        lemma_digit((a0 % 4) * 16, (b0 % 4) * 16);
        assert(ea[1] == eb[1]);
        assert(a0 % 4 == b0 % 4);
        assert(a =~= b);
    } else if a.len() == 2 {
        let a1 = a[1] as int;
        lemma_digit((a1 % 16) * 4, 0);
        assert(ea[2] != '=');
        if b.len() == 1 {
            assert(eb[2] == '=');
            assert(false);
        }
        if b.len() >= 3 {
            let (b1, b2) = (b[1] as int, b[2] as int);
            lemma_digit(b2 % 64, 0);
            assert(eb[3] != '=');
            assert(false);
        }
        let b1 = b[1] as int;
        lemma_digit((a0 % 4) * 16 + a1 / 16, (b0 % 4) * 16 + b1 / 16);
        lemma_digit((a1 % 16) * 4, (b1 % 16) * 4);
        assert(ea[1] == eb[1]);
        assert(ea[2] == eb[2]);
        lemma_place(a0 % 4, a1 / 16, b0 % 4, b1 / 16, 16);
        assert(a0 == b0 && a1 == b1);
        assert(a =~= b);
    } else {
        let (a1, a2) = (a[1] as int, a[2] as int);
        lemma_digit((a1 % 16) * 4 + a2 / 64, 0);
        lemma_digit(a2 % 64, 0);
        assert(ea[2] != '=');
        assert(ea[3] != '=');
        if b.len() == 1 {
            assert(eb[2] == '=');
            assert(false);
        }
        if b.len() == 2 {
            assert(eb[3] == '=');
            assert(false);
        }
        let (b1, b2) = (b[1] as int, b[2] as int);
        lemma_digit((a0 % 4) * 16 + a1 / 16, (b0 % 4) * 16 + b1 / 16);
        lemma_digit((a1 % 16) * 4 + a2 / 64, (b1 % 16) * 4 + b2 / 64);
        lemma_digit(a2 % 64, b2 % 64);
        assert(ea[1] == b64_digit((a0 % 4) * 16 + a1 / 16));
        assert(eb[1] == b64_digit((b0 % 4) * 16 + b1 / 16));
        assert(ea[2] == b64_digit((a1 % 16) * 4 + a2 / 64));
        assert(eb[2] == b64_digit((b1 % 16) * 4 + b2 / 64));
        assert(ea[3] == b64_digit(a2 % 64));
        assert(eb[3] == b64_digit(b2 % 64));
        lemma_place(a0 % 4, a1 / 16, b0 % 4, b1 / 16, 16);
        lemma_place(a1 % 16, a2 / 64, b1 % 16, b2 / 64, 4);
        assert(a0 == b0 && a1 == b1 && a2 == b2);
        assert(ea.skip(4) =~= base64_encoded(a.skip(3)));
        assert(eb.skip(4) =~= base64_encoded(b.skip(3)));
        lemma_base64_injective(a.skip(3), b.skip(3));
        assert(a =~= a.take(3) + a.skip(3));
        assert(b =~= b.take(3) + b.skip(3));
        assert(a.take(3) =~= b.take(3));
    }
}

} // verus!
