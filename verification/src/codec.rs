//! Byte codecs that other crates compute: SHA-1 digests, zlib streams,
//! base64 text, and UTF-8 checks from std.
use std::io::{Read, Write};
use sha1::Digest;
use vstd::prelude::*;
use vstd::utf8::*;

verus! {

/// The SHA-1 digest of `data`.
pub uninterp spec fn sha1_of(data: Seq<u8>) -> Seq<u8>;

/// The zlib stream that `flate2` writes for `data` at the default
/// compression level.
pub uninterp spec fn zlib_compressed(data: Seq<u8>) -> Seq<u8>;

/// The bytes that `flate2` reads out of the zlib stream `data`, or `None`
/// where the stream is not valid.
pub uninterp spec fn zlib_decompressed(data: Seq<u8>) -> Option<Seq<u8>>;

/// The bytes that `base64` reads out of standard, padded base64 text, or
/// `None` where the text is not valid.
pub uninterp spec fn base64_decoded(text: Seq<char>) -> Option<Seq<u8>>;

#[verifier::external_type_specification]
#[verifier::external_body]
pub struct ExIoError(std::io::Error);

#[verifier::external_type_specification]
#[verifier::external_body]
pub struct ExUtf8Error(std::str::Utf8Error);

#[verifier::external_type_specification]
#[verifier::external_body]
pub struct ExFromUtf8Error(std::string::FromUtf8Error);

#[verifier::external_type_specification]
#[verifier::external_body]
pub struct ExDecodeError(base64::DecodeError);

/// Calls `Sha1::digest` of the `sha1` crate, whose output is 20 bytes long.
/// The contract names the digest and states its length, nothing else.
#[verifier::external_body]
pub(crate) fn sha1_digest(data: &[u8]) -> (res: Vec<u8>)
    ensures
        res@ == sha1_of(data@),
        res@.len() == 20,
{
    sha1::Sha1::digest(data).to_vec()
}

/// Compresses `data` into a zlib stream with `flate2::write::ZlibEncoder` at
/// the default level, writing into a `Vec`. The contract names the stream,
/// states that this succeeds (the encoder's parameters are valid and a `Vec`
/// takes every write), and that the stream reads back, with
/// `flate2::read::ZlibDecoder`, as `data` (zlib is lossless).
#[verifier::external_body]
pub(crate) fn zlib_compress(data: &[u8]) -> (res: Result<Vec<u8>, std::io::Error>)
    ensures
        res is Ok,
        res matches Ok(v) ==> v@ == zlib_compressed(data@),
        res matches Ok(v) ==> zlib_decompressed(v@) == Some(data@),
{
    let mut encoder = flate2::write::ZlibEncoder::new(Vec::new(), flate2::Compression::default());
    encoder.write_all(data)?;
    encoder.finish()
}

/// Reads the zlib stream `data` to its end with `flate2::read::ZlibDecoder`.
/// The contract names what comes out.
#[verifier::external_body]
pub(crate) fn zlib_decompress(data: &[u8]) -> (res: Result<Vec<u8>, std::io::Error>)
    ensures
        res is Ok <==> zlib_decompressed(data@) is Some,
        res matches Ok(v) ==> zlib_decompressed(data@) == Some(v@),
{
    let mut decoder = flate2::read::ZlibDecoder::new(data);
    let mut out = Vec::new();
    decoder.read_to_end(&mut out)?;
    Ok(out)
}

/// The character of a 6-bit value in the standard base64 alphabet.
pub open spec fn base64_digit(n: int) -> char {
    if 0 <= n < 26 {
        ('A' as int + n) as char
    } else if 26 <= n < 52 {
        ('a' as int + n - 26) as char
    } else if 52 <= n < 62 {
        ('0' as int + n - 52) as char
    } else if n == 62 {
        '+'
    } else {
        '/'
    }
}

/// Standard base64 text of `data`: each group of three bytes becomes four
/// characters, and a last group of one or two bytes is padded with `=`.
pub open spec fn base64_encoded(data: Seq<u8>) -> Seq<char>
    decreases data.len(),
{
    if data.len() == 0 {
        Seq::empty()
    } else if data.len() == 1 {
        seq![base64_digit((data[0] / 4) as int), base64_digit(((data[0] % 4) * 16) as int), '=', '=']
    } else if data.len() == 2 {
        seq![
            base64_digit((data[0] / 4) as int),
            base64_digit(((data[0] % 4) * 16 + data[1] / 16) as int),
            base64_digit(((data[1] % 16) * 4) as int),
            '=',
        ]
    } else {
        seq![
            base64_digit((data[0] / 4) as int),
            base64_digit(((data[0] % 4) * 16 + data[1] / 16) as int),
            base64_digit(((data[1] % 16) * 4 + data[2] / 64) as int),
            base64_digit((data[2] % 64) as int),
        ] + base64_encoded(data.skip(3))
    }
}

/// Calls `base64::encode`, which writes standard, padded base64 text.
#[verifier::external_body]
pub(crate) fn base64_encode(data: &[u8]) -> (res: String)
    ensures
        res@ == base64_encoded(data@),
{
    base64::encode(data)
}

/// Calls `base64::decode` with the standard alphabet. The contract names the
/// result, and states that the text of any bytes reads back as those bytes.
#[verifier::external_body]
pub(crate) fn base64_decode(text: &str) -> (res: Result<Vec<u8>, base64::DecodeError>)
    ensures
        res is Ok <==> base64_decoded(text@) is Some,
        res matches Ok(v) ==> base64_decoded(text@) == Some(v@),
        res is Ok || forall|data: Seq<u8>| #[trigger] base64_encoded(data) != text@,
        res matches Ok(v) ==> forall|data: Seq<u8>| #[trigger] base64_encoded(data) == text@ ==> v@ == data,
{
    base64::decode(text)
}

/// Calls `std::str::from_utf8`, which accepts exactly the valid UTF-8 byte
/// strings and reads them as their characters.
#[verifier::external_body]
pub(crate) fn str_from_utf8(bytes: &[u8]) -> (res: Result<&str, std::str::Utf8Error>)
    ensures
        res is Ok <==> valid_utf8(bytes@),
        res matches Ok(s) ==> s@ == decode_utf8(bytes@),
{
    std::str::from_utf8(bytes)
}

/// Calls `String::from_utf8`, which accepts exactly the valid UTF-8 byte
/// strings and reads them as their characters.
#[verifier::external_body]
pub(crate) fn string_from_utf8(bytes: Vec<u8>) -> (res: Result<String, std::string::FromUtf8Error>)
    ensures
        res is Ok <==> valid_utf8(bytes@),
        res matches Ok(s) ==> s@ == decode_utf8(bytes@),
{
    String::from_utf8(bytes)
}

} // verus!

verus! {

/// No base64 digit is a comma or a colon.
proof fn lemma_base64_digit_plain(n: int)
    ensures
        base64_digit(n) != ',',
        base64_digit(n) != ':',
{
}

/// Base64 text holds no comma and no colon.
pub proof fn lemma_base64_plain(data: Seq<u8>)
    ensures
        !crate::text::has_char(base64_encoded(data), ','),
        !crate::text::has_char(base64_encoded(data), ':'),
    decreases data.len(),
{
    let e = base64_encoded(data);
    if data.len() >= 3 {
        lemma_base64_plain(data.skip(3));
    }
    assert forall|q: int| 0 <= q < e.len() implies e[q] != ',' && e[q] != ':' by {
        if data.len() >= 3 && q >= 4 {
            assert(e[q] == base64_encoded(data.skip(3))[q - 4]);
        } else if data.len() > 0 {
            lemma_base64_digit_plain((data[0] / 4) as int);
            if data.len() == 1 {
                lemma_base64_digit_plain(((data[0] % 4) * 16) as int);
            } else {
                lemma_base64_digit_plain(((data[0] % 4) * 16 + data[1] / 16) as int);
                if data.len() == 2 {
                    lemma_base64_digit_plain(((data[1] % 16) * 4) as int);
                } else {
                    lemma_base64_digit_plain(((data[1] % 16) * 4 + data[2] / 64) as int);
                    lemma_base64_digit_plain((data[2] % 64) as int);
                }
            }
        }
    }
}

} // verus!

verus! {

/// What reading the zlib stream `data` to its end gives; `None` where it is
/// not a valid stream.
pub fn decompress_zlib(data: &[u8]) -> (res: Option<Vec<u8>>)
    ensures
        match res {
            Some(v) => zlib_decompressed(data@) == Some(v@),
            None => zlib_decompressed(data@) is None,
        },
{
    match zlib_decompress(data) {
        Ok(v) => Some(v),
        Err(_) => None,
    }
}

} // verus!
