//! Identity and classification of ingested files: the content fingerprint,
//! the extension-to-MIME table, the coarse media category, and the data-URL
//! form of stored thumbnails.

use vstd::prelude::*;

use crate::strings::{ascii_lower, lower_chars, str_eq, str_starts_with, string_push};

verus! {

/// The MIME type of a file extension, by the library's fixed table; unknown
/// extensions map to the octet-stream type. Case-insensitive.
pub open spec fn spec_mime_of(ext: Seq<char>) -> Seq<char> {
    let e = lower_chars(ext);
    if e == "png"@ {
        "image/png"@
    } else if e == "jpg"@ || e == "jpeg"@ {
        "image/jpeg"@
    } else if e == "gif"@ {
        "image/gif"@
    } else if e == "bmp"@ {
        "image/bmp"@
    } else if e == "webp"@ {
        "image/webp"@
    } else if e == "svg"@ {
        "image/svg+xml"@
    } else if e == "ico"@ {
        "image/x-icon"@
    } else if e == "tiff"@ || e == "tif"@ {
        "image/tiff"@
    } else if e == "psd"@ {
        "image/vnd.adobe.photoshop"@
    } else if e == "mp3"@ {
        "audio/mpeg"@
    } else if e == "wav"@ {
        "audio/wav"@
    } else if e == "ogg"@ {
        "audio/ogg"@
    } else if e == "flac"@ {
        "audio/flac"@
    } else if e == "aac"@ {
        "audio/aac"@
    } else if e == "m4a"@ {
        "audio/mp4"@
    } else if e == "wma"@ {
        "audio/x-ms-wma"@
    } else if e == "mp4"@ {
        "video/mp4"@
    } else if e == "avi"@ {
        "video/x-msvideo"@
    } else if e == "mov"@ {
        "video/quicktime"@
    } else if e == "webm"@ {
        "video/webm"@
    } else if e == "json"@ {
        "application/json"@
    } else if e == "xml"@ {
        "application/xml"@
    } else {
        "application/octet-stream"@
    }
}

/// Look up the MIME type for a file extension in the fixed table (no content
/// sniffing); an unknown extension maps to `application/octet-stream`.
pub fn guess_mime_type(ext: &str) -> (r: String)
    ensures
        r@ == spec_mime_of(ext@),
{
    let low = ascii_lower(ext);
    let e = low.as_str();
    if str_eq(e, "png") {
        "image/png".to_owned()
    } else if str_eq(e, "jpg") || str_eq(e, "jpeg") {
        "image/jpeg".to_owned()
    } else if str_eq(e, "gif") {
        "image/gif".to_owned()
    } else if str_eq(e, "bmp") {
        "image/bmp".to_owned()
    } else if str_eq(e, "webp") {
        "image/webp".to_owned()
    } else if str_eq(e, "svg") {
        "image/svg+xml".to_owned()
    } else if str_eq(e, "ico") {
        "image/x-icon".to_owned()
    } else if str_eq(e, "tiff") || str_eq(e, "tif") {
        "image/tiff".to_owned()
    } else if str_eq(e, "psd") {
        "image/vnd.adobe.photoshop".to_owned()
    } else if str_eq(e, "mp3") {
        "audio/mpeg".to_owned()
    } else if str_eq(e, "wav") {
        "audio/wav".to_owned()
    } else if str_eq(e, "ogg") {
        "audio/ogg".to_owned()
    } else if str_eq(e, "flac") {
        "audio/flac".to_owned()
    } else if str_eq(e, "aac") {
        "audio/aac".to_owned()
    } else if str_eq(e, "m4a") {
        "audio/mp4".to_owned()
    } else if str_eq(e, "wma") {
        "audio/x-ms-wma".to_owned()
    } else if str_eq(e, "mp4") {
        "video/mp4".to_owned()
    } else if str_eq(e, "avi") {
        "video/x-msvideo".to_owned()
    } else if str_eq(e, "mov") {
        "video/quicktime".to_owned()
    } else if str_eq(e, "webm") {
        "video/webm".to_owned()
    } else if str_eq(e, "json") {
        "application/json".to_owned()
    } else if str_eq(e, "xml") {
        "application/xml".to_owned()
    } else {
        "application/octet-stream".to_owned()
    }
}

/// The coarse media category of a MIME type: `image`, `audio` or `video` by
/// prefix, `other` for everything else.
pub open spec fn spec_file_type_of(mime: Seq<char>) -> Seq<char> {
    if mime.len() >= 6 && mime.take(6) == "image/"@ {
        "image"@
    } else if mime.len() >= 6 && mime.take(6) == "audio/"@ {
        "audio"@
    } else if mime.len() >= 6 && mime.take(6) == "video/"@ {
        "video"@
    } else {
        "other"@
    }
}

/// Categorize a MIME type as `image`, `audio`, `video` or `other`.
pub fn file_type_from_mime(mime: &str) -> (r: &'static str)
    ensures
        r@ == spec_file_type_of(mime@),
{
    proof {
        reveal_strlit("image/");
        reveal_strlit("audio/");
        reveal_strlit("video/");
    }
    if str_starts_with(mime, "image/") {
        "image"
    } else if str_starts_with(mime, "audio/") {
        "audio"
    } else if str_starts_with(mime, "video/") {
        "video"
    } else {
        "other"
    }
}

/// Whether a (case-folded) file extension is one the importer accepts.
pub open spec fn spec_is_supported_ext(ext: Seq<char>) -> bool {
    let e = lower_chars(ext);
    e == "png"@ || e == "jpg"@ || e == "jpeg"@ || e == "gif"@ || e == "bmp"@ || e == "webp"@
        || e == "svg"@ || e == "tiff"@ || e == "mp3"@ || e == "wav"@ || e == "ogg"@ || e == "flac"@
        || e == "aac"@ || e == "m4a"@ || e == "mp4"@ || e == "avi"@ || e == "mov"@ || e == "webm"@
}

/// Whether a file with the given extension is accepted for import.
pub fn is_supported_file(ext: &str) -> (r: bool)
    ensures
        r == spec_is_supported_ext(ext@),
{
    let low = ascii_lower(ext);
    let e = low.as_str();
    str_eq(e, "png") || str_eq(e, "jpg") || str_eq(e, "jpeg") || str_eq(e, "gif") || str_eq(
        e,
        "bmp",
    ) || str_eq(e, "webp") || str_eq(e, "svg") || str_eq(e, "tiff") || str_eq(e, "mp3") || str_eq(
        e,
        "wav",
    ) || str_eq(e, "ogg") || str_eq(e, "flac") || str_eq(e, "aac") || str_eq(e, "m4a") || str_eq(
        e,
        "mp4",
    ) || str_eq(e, "avi") || str_eq(e, "mov") || str_eq(e, "webm")
}

/// The SHA-256 digest of a byte sequence: a function of the bytes alone, so
/// identical bytes always fingerprint identically, independent of file name
/// or path.
pub uninterp spec fn sha256_of(bytes: Seq<u8>) -> Seq<u8>;

/// Relies on sha2's `Sha256`: the digest is 32 bytes and a pure function of
/// the input bytes.
#[verifier::external_body]
pub fn sha256_digest(bytes: &[u8]) -> (r: Vec<u8>)
    ensures
        r@ == sha256_of(bytes@),
        r@.len() == 32,
{
    <sha2::Sha256 as sha2::Digest>::digest(bytes).to_vec()
}

/// The lowercase hexadecimal character for the value `d` (below sixteen).
pub open spec fn hex_char(d: nat) -> char {
    if d < 10 {
        ((48 + d) as u8) as char
    } else {
        ((87 + d) as u8) as char
    }
}

/// The lowercase hexadecimal rendering of a byte sequence, two characters per
/// byte, high nibble first.
pub open spec fn spec_hex_lower(data: Seq<u8>) -> Seq<char> {
    Seq::new(
        data.len() * 2,
        |i: int|
            if i % 2 == 0 {
                hex_char((data[i / 2] >> 4) as nat)
            } else {
                hex_char((data[i / 2] & 0x0f) as nat)
            },
    )
}

/// Render bytes as lowercase hexadecimal.
#[verifier::loop_isolation(false)]
pub fn to_hex_lower(data: &[u8]) -> (r: String)
    ensures
        r@ == spec_hex_lower(data@),
{
    let mut r = String::new();
    let n = data.len();
    for i in 0..n
        invariant
            r@.len() == 2 * i,
            r@ =~= spec_hex_lower(data@.take(i as int)),
    {
        let b = data[i];
        let hi = b >> 4;
        let lo = b & 0x0f;
        proof {
            assert(b >> 4 < 16 && b & 0x0f < 16) by (bit_vector);
        }
        let c_hi = if hi < 10 {
            (48 + hi) as char
        } else {
            (87 + hi) as char
        };
        let c_lo = if lo < 10 {
            (48 + lo) as char
        } else {
            (87 + lo) as char
        };
        string_push(&mut r, c_hi);
        string_push(&mut r, c_lo);
        proof {
            assert(c_hi == hex_char((data@[i as int] >> 4) as nat));
            assert(c_lo == hex_char((data@[i as int] & 0x0f) as nat));
            assert(r@ =~= spec_hex_lower(data@.take(i + 1)));
        }
    }
    proof {
        assert(data@.take(n as int) =~= data@);
    }
    r
}

/// The content fingerprint: the SHA-256 digest of the bytes, rendered as 64
/// lowercase hexadecimal characters.
pub open spec fn sha256_hex_of(bytes: Seq<u8>) -> Seq<char> {
    spec_hex_lower(sha256_of(bytes))
}

/// Fingerprint raw file content: hex-encoded SHA-256 over the whole byte
/// sequence, order-sensitive, independent of name or path.
pub fn sha256_hex(bytes: &[u8]) -> (r: String)
    ensures
        r@ == sha256_hex_of(bytes@),
        r@.len() == 64,
{
    let digest = sha256_digest(bytes);
    to_hex_lower(digest.as_slice())
}

/// The standard (padded) base64 rendering of a byte sequence.
pub uninterp spec fn base64_of(bytes: Seq<u8>) -> Seq<char>;

/// Relies on base64's STANDARD engine: a pure function of the input bytes;
/// with padding the output length is four characters per started group of
/// three input bytes.
#[verifier::external_body]
pub fn base64_encode(bytes: &[u8]) -> (r: String)
    ensures
        r@ == base64_of(bytes@),
        r@.len() == 4 * ((bytes@.len() + 2) / 3),
{
    base64::Engine::encode(&base64::engine::general_purpose::STANDARD, bytes)
}


/// Identify a file from its raw bytes and extension: the content fingerprint,
/// the MIME type from the fixed extension table, and the coarse category.
/// Pure; reading the bytes is the caller's concern.
pub fn identify(bytes: &[u8], ext: &str) -> (r: (String, String, String))
    ensures
        r.0@ == sha256_hex_of(bytes@),
        r.1@ == spec_mime_of(ext@),
        r.2@ == spec_file_type_of(spec_mime_of(ext@)),
{
    let hash = sha256_hex(bytes);
    let mime = guess_mime_type(ext);
    let category = file_type_from_mime(mime.as_str()).to_owned();
    (hash, mime, category)
}

/// The MIME type a thumbnail data URL declares for a thumbnail file
/// extension; unknown extensions fall back to PNG, the format thumbnails are
/// written in.
pub open spec fn spec_thumb_mime_of(ext: Seq<char>) -> Seq<char> {
    if ext == "png"@ {
        "image/png"@
    } else if ext == "jpg"@ || ext == "jpeg"@ {
        "image/jpeg"@
    } else if ext == "gif"@ {
        "image/gif"@
    } else if ext == "webp"@ {
        "image/webp"@
    } else {
        "image/png"@
    }
}

/// The full data URL for thumbnail bytes with the given file extension.
pub open spec fn spec_thumbnail_data_url(ext: Seq<char>, bytes: Seq<u8>) -> Seq<char> {
    "data:"@ + spec_thumb_mime_of(ext) + ";base64,"@ + base64_of(bytes)
}

/// Render thumbnail bytes as a `data:` URL, declaring the MIME type that
/// matches the thumbnail's file extension and encoding the bytes as base64.
pub fn thumbnail_data_url(ext: &str, bytes: &Vec<u8>) -> (r: String)
    ensures
        r@ == spec_thumbnail_data_url(ext@, bytes@),
{
    let mime: &str = if str_eq(ext, "png") {
        "image/png"
    } else if str_eq(ext, "jpg") || str_eq(ext, "jpeg") {
        "image/jpeg"
    } else if str_eq(ext, "gif") {
        "image/gif"
    } else if str_eq(ext, "webp") {
        "image/webp"
    } else {
        "image/png"
    };
    proof {
        reveal_strlit("png");
        reveal_strlit("image/png");
    }
    let mut r = "data:".to_owned();
    r.append(mime);
    r.append(";base64,");
    let b64 = base64_encode(bytes.as_slice());
    r.append(b64.as_str());
    r
}

} // verus!
