//! Payload decoding, fingerprints and size rendering.

use vstd::prelude::*;
use vstd::string::*;
use crate::codec::{base64_decode, base64_decoded, hex_decode, hex_decodable, hex_decoded, xxh3_64, xxh3_64_of};
use crate::text::{decimal, decimal_string, hex_digits, hex_string, str_eq};

verus! {

/// The fingerprint of a payload: its XXH3-64 hash and that hash in lowercase
/// hex without leading zeros.
pub fn xxh3_64_hex(input: Vec<u8>) -> (r: (u64, String))
    ensures
        r.0 == xxh3_64_of(input@),
        r.1@ == hex_digits(r.0 as nat),
{
    let hash = xxh3_64(input.as_slice());
    (hash, hex_string(hash))
}

pub open spec fn is_quote(c: char) -> bool {
    c == '"' || c == '\''
}

/// `s` without one layer of wrapping quotes: when it has at least two
/// characters and starts and ends with the same quote, those two go.
pub open spec fn unquoted(s: Seq<char>) -> Seq<char> {
    if s.len() >= 2 && is_quote(s[0]) && s.last() == s[0] {
        s.subrange(1, s.len() - 1)
    } else {
        s
    }
}

/// Removes one layer of matching single or double quotes around a line.
pub fn remove_wrapped_quotes(input: &str) -> (r: &str)
    ensures
        r@ == unquoted(input@),
{
    let n = input.unicode_len();
    if n < 2 {
        return input;
    }
    let first = input.get_char(0);
    let last = input.get_char(n - 1);
    if (first == '"' || first == '\'') && last == first {
        input.substring_char(1, n - 1)
    } else {
        input
    }
}

/// Removes one pair of matching single or double quotes around a byte string.
pub fn remove_wrapped_quotes_bytes(input: &[u8]) -> (r: &[u8])
    ensures
        r@ == (if input@.len() >= 2 && ((input@[0] == 34 && input@.last() == 34) || (input@[0] == 39 && input@.last() == 39)) {
            input@.subrange(1, input@.len() - 1)
        } else {
            input@
        }),
{
    if input.len() < 2 {
        return input;
    }
    let first = input[0];
    let last = input[input.len() - 1];
    if (first == 34 && last == 34) || (first == 39 && last == 39) {
        &input[1..input.len() - 1]
    } else {
        input
    }
}

pub open spec fn is_ascii_whitespace(b: u8) -> bool {
    b == 9 || b == 10 || b == 12 || b == 13 || b == 32
}

/// `b` without its ASCII white space.
pub open spec fn without_ascii_whitespace(b: Seq<u8>) -> Seq<u8>
    decreases b.len(),
{
    if b.len() == 0 {
        Seq::empty()
    } else if is_ascii_whitespace(b.last()) {
        without_ascii_whitespace(b.drop_last())
    } else {
        without_ascii_whitespace(b.drop_last()).push(b.last())
    }
}

fn strip_ascii_whitespace(b: &[u8]) -> (r: Vec<u8>)
    ensures
        r@ == without_ascii_whitespace(b@),
{
    let mut out: Vec<u8> = Vec::new();
    let mut i: usize = 0;
    while i < b.len()
        invariant
            i <= b@.len(),
            out@ == without_ascii_whitespace(b@.take(i as int)),
        decreases b.len() - i,
    {
        assert(b@.take(i + 1).drop_last() =~= b@.take(i as int));
        let c = b[i];
        if !(c == 9 || c == 10 || c == 12 || c == 13 || c == 32) {
            out.push(c);
        }
        i = i + 1;
    }
    assert(b@.take(i as int) =~= b@);
    out
}

/// The decoded bytes of text in an encoding mode, or `None` when it does not decode.
pub open spec fn decoded_text(text: Seq<u8>, hex: bool) -> Option<Seq<u8>> {
    if hex {
        if hex_decodable(text) {
            Some(hex_decoded(text))
        } else {
            None
        }
    } else {
        base64_decoded(text)
    }
}

/// The start of the message of a payload that does not decode.
pub open spec fn decode_error_prefix(hex: bool) -> Seq<char> {
    if hex {
        "invalid hex payload: "@
    } else {
        "invalid base64 payload: "@
    }
}

fn decode_text(text: &[u8], hex: bool) -> (r: Result<Vec<u8>, String>)
    ensures
        r is Ok <==> decoded_text(text@, hex) is Some,
        r is Ok ==> decoded_text(text@, hex) == Some(r->Ok_0@),
        r is Err ==> crate::text::has_prefix(r->Err_0@, decode_error_prefix(hex)),
{
    if hex {
        match hex_decode(text) {
            Ok(v) => Ok(v),
            Err(e) => {
                let mut message = String::from_str("invalid hex payload: ");
                let ghost p = message@;
                message.append(e.as_str());
                assert(message@.subrange(0, p.len() as int) =~= p);
                Err(message)
            },
        }
    } else {
        match base64_decode(text) {
            Ok(v) => Ok(v),
            Err(e) => {
                let mut message = String::from_str("invalid base64 payload: ");
                let ghost p = message@;
                message.append(e.as_str());
                assert(message@.subrange(0, p.len() as int) =~= p);
                Err(message)
            },
        }
    }
}

/// The input modes.
pub open spec fn is_mode(mode: Seq<char>) -> bool {
    mode == "base64"@ || mode == "string"@ || mode == "hex"@ || mode == "binary"@
}

/// The payload of one input line: `string` takes the line without its
/// wrapping quotes, `binary` the line as it is, and `hex` and `base64` decode
/// the unquoted line with its ASCII white space removed.
pub open spec fn line_payload(line: Seq<char>, mode: Seq<char>) -> Option<Seq<u8>> {
    let unq = vstd::utf8::encode_utf8(unquoted(line));
    if mode == "string"@ {
        Some(unq)
    } else if mode == "binary"@ {
        Some(vstd::utf8::encode_utf8(line))
    } else if mode == "hex"@ {
        decoded_text(without_ascii_whitespace(unq), true)
    } else if mode == "base64"@ {
        decoded_text(without_ascii_whitespace(unq), false)
    } else {
        None
    }
}

fn unsupported_mode(input_mode: &str) -> (r: String)
    ensures
        r@ == input_mode@ + " not a supported input mode."@,
{
    let mut message = String::from_str(input_mode);
    message.append(" not a supported input mode.");
    message
}

/// Decodes one input line under an input mode.
pub fn get_payload(line: &str, input_mode: &str) -> (r: Result<Vec<u8>, String>)
    ensures
        r is Ok <==> line_payload(line@, input_mode@) is Some,
        r is Ok ==> line_payload(line@, input_mode@) == Some(r->Ok_0@),
        r is Err && input_mode@ == "hex"@ ==> crate::text::has_prefix(r->Err_0@, "invalid hex payload: "@),
        r is Err && input_mode@ == "base64"@ ==> crate::text::has_prefix(r->Err_0@, "invalid base64 payload: "@),
        !is_mode(input_mode@) ==> r is Err && r->Err_0@ == input_mode@ + " not a supported input mode."@,
{
    proof {
        reveal_strlit("hex");
        reveal_strlit("base64");
        reveal_strlit("string");
        reveal_strlit("binary");
    }
    let unquoted_line = remove_wrapped_quotes(line);
    if str_eq(input_mode, "string") {
        Ok(unquoted_line.as_bytes_vec())
    } else if str_eq(input_mode, "binary") {
        Ok(line.as_bytes_vec())
    } else if str_eq(input_mode, "hex") || str_eq(input_mode, "base64") {
        let hex = str_eq(input_mode, "hex");
        proof {
            reveal_strlit("hex");
            reveal_strlit("base64");
            assert("hex"@.len() == 3);
            assert("base64"@.len() == 6);
        }
        assert(input_mode@ == "base64"@ ==> !hex);
        let normalized = strip_ascii_whitespace(unquoted_line.as_bytes());
        proof {
            reveal_strlit("hex");
            reveal_strlit("base64");
        }
        decode_text(normalized.as_slice(), hex)
    } else {
        Err(unsupported_mode(input_mode))
    }
}

/// The payload of a whole blob: `string` and `binary` take the bytes as they
/// are; `hex` and `base64` remove ASCII white space, then one pair of
/// wrapping quotes, then decode.
pub open spec fn blob_payload(blob: Seq<u8>, mode: Seq<char>) -> Option<Seq<u8>> {
    let n = without_ascii_whitespace(blob);
    let unq = if n.len() >= 2 && ((n[0] == 34 && n.last() == 34) || (n[0] == 39 && n.last() == 39)) {
        n.subrange(1, n.len() - 1)
    } else {
        n
    };
    if mode == "string"@ || mode == "binary"@ {
        Some(blob)
    } else if mode == "hex"@ {
        decoded_text(unq, true)
    } else if mode == "base64"@ {
        decoded_text(unq, false)
    } else {
        None
    }
}

/// Decodes a whole blob under an input mode.
pub fn get_payload_from_blob(blob: &[u8], input_mode: &str) -> (r: Result<Vec<u8>, String>)
    ensures
        r is Ok <==> blob_payload(blob@, input_mode@) is Some,
        r is Ok ==> blob_payload(blob@, input_mode@) == Some(r->Ok_0@),
        r is Err && input_mode@ == "hex"@ ==> crate::text::has_prefix(r->Err_0@, "invalid hex payload: "@),
        r is Err && input_mode@ == "base64"@ ==> crate::text::has_prefix(r->Err_0@, "invalid base64 payload: "@),
        !is_mode(input_mode@) ==> r is Err && r->Err_0@ == input_mode@ + " not a supported input mode."@,
{
    proof {
        reveal_strlit("hex");
        reveal_strlit("base64");
        reveal_strlit("string");
        reveal_strlit("binary");
    }
    if str_eq(input_mode, "string") || str_eq(input_mode, "binary") {
        let mut out: Vec<u8> = Vec::new();
        let mut i: usize = 0;
        while i < blob.len()
            invariant
                i <= blob@.len(),
                out@ == blob@.take(i as int),
            decreases blob.len() - i,
        {
            out.push(blob[i]);
            i = i + 1;
            assert(out@ =~= blob@.take(i as int));
        }
        assert(blob@.take(i as int) =~= blob@);
        Ok(out)
    } else if str_eq(input_mode, "hex") || str_eq(input_mode, "base64") {
        let hex = str_eq(input_mode, "hex");
        proof {
            reveal_strlit("hex");
            reveal_strlit("base64");
            assert("hex"@.len() == 3);
            assert("base64"@.len() == 6);
        }
        assert(input_mode@ == "base64"@ ==> !hex);
        let normalized = strip_ascii_whitespace(blob);
        let unq = remove_wrapped_quotes_bytes(normalized.as_slice());
        proof {
            reveal_strlit("hex");
            reveal_strlit("base64");
            reveal_strlit("string");
            reveal_strlit("binary");
        }
        decode_text(unq, hex)
    } else {
        Err(unsupported_mode(input_mode))
    }
}

/// `size` rounded to two decimals in units of `unit`, as hundredths, ties to even.
pub open spec fn hundredths(size: nat, unit: nat) -> nat
    recommends
        unit > 0,
{
    let q = (size * 100) / unit;
    let r = (size * 100) % unit;
    if 2 * r > unit || (2 * r == unit && q % 2 == 1) {
        q + 1
    } else {
        q
    }
}

/// Two decimal digits of a number below one hundred.
pub open spec fn two_digits(n: nat) -> Seq<char> {
    seq![crate::text::digit_char(n / 10), crate::text::digit_char(n % 10)]
}

/// A byte count for people: whole bytes below a kilobyte, else two decimals
/// of the largest unit (KB, MB, GB, TB) that fits, with 1024 per step.
pub open spec fn size_text(size: int) -> Seq<char> {
    if size < 1024 {
        (if size < 0 { "-"@ + decimal((-size) as nat) } else { decimal(size as nat) }) + "B"@
    } else {
        let (unit, suffix) = if size < 1024 * 1024 {
            (1024nat, "KB"@)
        } else if size < 1024 * 1024 * 1024 {
            (1024 * 1024, "MB"@)
        } else if size < 1024 * 1024 * 1024 * 1024 {
            (1024 * 1024 * 1024, "GB"@)
        } else {
            (1024 * 1024 * 1024 * 1024, "TB"@)
        };
        let h = hundredths(size as nat, unit);
        decimal(h / 100) + "."@ + two_digits(h % 100) + suffix
    }
}

pub const KILOBYTE: i64 = 1024;
pub const MEGABYTE: i64 = 1024 * 1024;
pub const GIGABYTE: i64 = 1024 * 1024 * 1024;
pub const TERABYTE: i64 = 1024 * 1024 * 1024 * 1024;

/// Renders a byte count for people.
pub fn format_size(size: i64) -> (r: String)
    ensures
        r@ == size_text(size as int),
{
    if size < KILOBYTE {
        let mut out = if size < 0 {
            let mut s = String::from_str("-");
            let magnitude = (0 - (size as i128)) as u64;
            let digits = decimal_string(magnitude);
            s.append(digits.as_str());
            s
        } else {
            decimal_string(size as u64)
        };
        out.append("B");
        return out;
    }
    let (unit, suffix): (i64, &str) = if size < MEGABYTE {
        (KILOBYTE, "KB")
    } else if size < GIGABYTE {
        (MEGABYTE, "MB")
    } else if size < TERABYTE {
        (GIGABYTE, "GB")
    } else {
        (TERABYTE, "TB")
    };
    let scaled = (size as u128) * 100;
    let q = scaled / (unit as u128);
    let rem = scaled % (unit as u128);
    let h = if 2 * rem > unit as u128 || (2 * rem == unit as u128 && q % 2 == 1) { q + 1 } else { q };
    assert(h <= 0xffff_ffff_ffff_ffff_ffffu128) by (nonlinear_arith)
        requires
            h <= q + 1,
            q == scaled / (unit as u128),
            unit >= 1024,
            scaled <= 100 * 0x7fff_ffff_ffff_ffffu128,
    ;
    let whole = (h / 100) as u64;
    let frac = (h % 100) as u64;
    let mut out = decimal_string(whole);
    out.append(".");
    crate::text::push_char(&mut out, crate::text::digit(frac / 10));
    crate::text::push_char(&mut out, crate::text::digit(frac % 10));
    out.append(suffix);
    proof {
        assert(out@ =~= size_text(size as int));
    }
    out
}

} // verus!
