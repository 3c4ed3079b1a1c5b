//! The content-addressed object store: content hashes, compressed objects and
//! seal identifiers.

use vstd::prelude::*;
use vstd::utf8::encode_utf8;
use crate::text::{chars_of, lit, push_all, string_of};
use crate::seal::strings_view;

verus! {

/// The SHA-256 digest of a byte sequence.
pub uninterp spec fn sha256_digest(data: Seq<u8>) -> Seq<u8>;

/// The zlib stream (default compression level) that `flate2` writes for a byte sequence.
pub uninterp spec fn zlib_encoded(data: Seq<u8>) -> Seq<u8>;

/// What `flate2`'s zlib decoder reads back from a byte sequence, if it is a valid stream.
pub uninterp spec fn zlib_decoded(data: Seq<u8>) -> Option<Seq<u8>>;

/// Calls `sha2::Sha256::digest`. Claims the result is the digest of the input,
/// 32 bytes long (the output size of SHA-256).
#[verifier::external_body]
fn sha256(data: &[u8]) -> (r: Vec<u8>)
    ensures
        r@ == sha256_digest(data@),
        r@.len() == 32,
{
    <sha2::Sha256 as sha2::Digest>::digest(data).to_vec()
}

/// Calls `flate2::write::ZlibEncoder` with `Compression::default()` over an
/// in-memory buffer, which cannot fail to be written. Claims the result is the
/// encoder's output for the input, and that the zlib decoder reads the input
/// back from it (zlib is lossless).
#[verifier::external_body]
fn zlib_compress(data: &[u8]) -> (r: Vec<u8>)
    ensures
        r@ == zlib_encoded(data@),
        zlib_decoded(r@) == Some(data@),
{
    let mut enc = flate2::write::ZlibEncoder::new(Vec::new(), flate2::Compression::default());
    match std::io::Write::write_all(&mut enc, data) {
        Ok(()) => {},
        Err(_) => {},
    }
    match enc.finish() {
        Ok(v) => v,
        Err(_) => Vec::new(),
    }
}

/// Calls `flate2::read::ZlibDecoder` and reads it to the end. Claims the result
/// is what the decoder reads from the input, `None` when it reports an error.
#[verifier::external_body]
fn zlib_decompress(data: &[u8]) -> (r: Option<Vec<u8>>)
    ensures
        match r {
            Some(v) => zlib_decoded(data@) == Some(v@),
            None => zlib_decoded(data@) is None,
        },
{
    let mut dec = flate2::read::ZlibDecoder::new(data);
    let mut out = Vec::new();
    match std::io::Read::read_to_end(&mut dec, &mut out) {
        Ok(_) => Some(out),
        Err(_) => None,
    }
}

/// The lower-case hexadecimal digit for a value below 16.
pub open spec fn hex_digit(n: int) -> char {
    if n == 0 { '0' } else if n == 1 { '1' } else if n == 2 { '2' } else if n == 3 { '3' }
    else if n == 4 { '4' } else if n == 5 { '5' } else if n == 6 { '6' } else if n == 7 { '7' }
    else if n == 8 { '8' } else if n == 9 { '9' } else if n == 10 { 'a' } else if n == 11 { 'b' }
    else if n == 12 { 'c' } else if n == 13 { 'd' } else if n == 14 { 'e' } else { 'f' }
}

fn hex_digit_exec(n: u8) -> (r: char)
    requires
        n < 16,
    ensures
        r == hex_digit(n as int),
{
    match n {
        0 => '0', 1 => '1', 2 => '2', 3 => '3', 4 => '4', 5 => '5', 6 => '6', 7 => '7',
        8 => '8', 9 => '9', 10 => 'a', 11 => 'b', 12 => 'c', 13 => 'd', 14 => 'e', _ => 'f',
    }
}

/// Lower-case hexadecimal text of bytes, two digits per byte, as `{:x}` formats a digest.
pub open spec fn hex(bytes: Seq<u8>) -> Seq<char>
    decreases bytes.len(),
{
    if bytes.len() == 0 {
        seq![]
    } else {
        hex(bytes.drop_last()) + seq![
            hex_digit(bytes.last() as int / 16),
            hex_digit(bytes.last() as int % 16),
        ]
    }
}

/// Hexadecimal text has two digits per byte.
pub proof fn lemma_hex_len(bytes: Seq<u8>)
    ensures
        hex(bytes).len() == 2 * bytes.len(),
    decreases bytes.len(),
{
    if bytes.len() > 0 {
        lemma_hex_len(bytes.drop_last());
    }
}

/// Lower-case hexadecimal text of bytes.
pub fn hex_exec(bytes: &[u8]) -> (r: Vec<char>)
    ensures
        r@ == hex(bytes@),
{
    let mut r: Vec<char> = Vec::new();
    let mut i: usize = 0;
    while i < bytes.len()
        invariant
            0 <= i <= bytes@.len(),
            r@ == hex(bytes@.subrange(0, i as int)),
        decreases bytes@.len() - i,
    {
        let b = bytes[i];
        r.push(hex_digit_exec(b / 16));
        r.push(hex_digit_exec(b % 16));
        i += 1;
        proof {
            assert(bytes@.subrange(0, i as int).drop_last() =~= bytes@.subrange(0, i - 1));
        }
    }
    proof {
        assert(bytes@.subrange(0, i as int) =~= bytes@);
    }
    r
}

/// The name of an object in the store: the hex SHA-256 digest of its raw content.
pub open spec fn object_hash(raw: Seq<u8>) -> Seq<char> {
    hex(sha256_digest(raw))
}

/// The object name of raw content.
pub fn content_hash(raw: &[u8]) -> (r: String)
    ensures
        r@ == object_hash(raw@),
{
    let d = sha256(raw);
    let h = hex_exec(d.as_slice());
    string_of(h.as_slice())
}

/// An object ready to be written to the store: its name and its compressed bytes.
pub struct StoredObject {
    pub hash: String,
    pub compressed: Vec<u8>,
}

/// Prepares raw content for the store. The compressed bytes decode back to the content.
pub fn encode_object(raw: &[u8]) -> (r: StoredObject)
    ensures
        r.hash@ == object_hash(raw@),
        r.compressed@ == zlib_encoded(raw@),
        zlib_decoded(r.compressed@) == Some(raw@),
{
    StoredObject { hash: content_hash(raw), compressed: zlib_compress(raw) }
}

/// The raw content of a stored object, `None` when its bytes are no valid zlib stream.
pub fn decode_object(compressed: &[u8]) -> (r: Option<Vec<u8>>)
    ensures
        match r {
            Some(v) => zlib_decoded(compressed@) == Some(v@),
            None => zlib_decoded(compressed@) is None,
        },
{
    zlib_decompress(compressed)
}

/// Appends the UTF-8 bytes of `s` to `out`.
fn push_utf8(out: &mut Vec<u8>, s: &str)
    ensures
        final(out)@ == old(out)@ + encode_utf8(s@),
{
    let b = s.as_bytes();
    let mut i: usize = 0;
    while i < b.len()
        invariant
            b@ == encode_utf8(s@),
            0 <= i <= b@.len(),
            out@ == old(out)@ + b@.subrange(0, i as int),
        decreases b@.len() - i,
    {
        out.push(b[i]);
        i += 1;
        proof {
            assert(b@.subrange(0, i as int) =~= b@.subrange(0, i - 1).push(b@[i - 1]));
        }
    }
    proof {
        assert(b@.subrange(0, i as int) =~= b@);
    }
}

/// The UTF-8 bytes of each string, concatenated.
pub open spec fn concat_utf8(ss: Seq<Seq<char>>) -> Seq<u8>
    decreases ss.len(),
{
    if ss.len() == 0 {
        seq![]
    } else {
        concat_utf8(ss.drop_last()) + encode_utf8(ss.last())
    }
}

/// The bytes a seal id is derived from: the message, the timestamp, each parent id
/// and each staged path, in that order.
pub open spec fn seal_id_input(
    message: Seq<char>,
    timestamp: Seq<char>,
    parents: Seq<Seq<char>>,
    staged: Seq<Seq<char>>,
) -> Seq<u8> {
    encode_utf8(message) + encode_utf8(timestamp) + concat_utf8(parents) + concat_utf8(staged)
}

/// A seal id: `seal_` followed by the first eight hex digits of the digest of its input.
pub open spec fn seal_id_of(
    message: Seq<char>,
    timestamp: Seq<char>,
    parents: Seq<Seq<char>>,
    staged: Seq<Seq<char>>,
) -> Seq<char> {
    "seal_"@ + hex(sha256_digest(seal_id_input(message, timestamp, parents, staged))).subrange(0, 8)
}

fn push_all_utf8(out: &mut Vec<u8>, ss: &Vec<String>)
    ensures
        final(out)@ == old(out)@ + concat_utf8(strings_view(ss@)),
{
    let ghost sv = strings_view(ss@);
    let mut i: usize = 0;
    assert(sv.subrange(0, 0) =~= Seq::<Seq<char>>::empty());
    assert(old(out)@ + concat_utf8(seq![]) =~= old(out)@);
    while i < ss.len()
        invariant
            sv == strings_view(ss@),
            0 <= i <= ss@.len(),
            out@ == old(out)@ + concat_utf8(sv.subrange(0, i as int)),
        decreases ss@.len() - i,
    {
        push_utf8(out, ss[i].as_str());
        i += 1;
        proof {
            assert(sv.subrange(0, i as int).drop_last() =~= sv.subrange(0, i - 1));
            assert(out@ =~= old(out)@ + concat_utf8(sv.subrange(0, i as int)));
        }
    }
    proof {
        assert(sv.subrange(0, i as int) =~= sv);
    }
}

/// The id of a new seal with the given message, creation time, parents and staged paths.
pub fn seal_id(message: &str, timestamp: &str, parents: &Vec<String>, staged: &Vec<String>) -> (r: String)
    ensures
        r@ == seal_id_of(message@, timestamp@, strings_view(parents@), strings_view(staged@)),
{
    let mut data: Vec<u8> = Vec::new();
    push_utf8(&mut data, message);
    push_utf8(&mut data, timestamp);
    push_all_utf8(&mut data, parents);
    push_all_utf8(&mut data, staged);
    assert(data@ =~= seal_id_input(message@, timestamp@, strings_view(parents@), strings_view(staged@)));
    let d = sha256(data.as_slice());
    let h = hex_exec(d.as_slice());
    proof {
        lemma_hex_len(d@);
    }
    let mut id = lit("seal_");
    let short = crate::text::slice_chars(h.as_slice(), 0, 8);
    push_all(&mut id, short.as_slice());
    string_of(id.as_slice())
}

/// The standard-alphabet, padded base64 text of bytes.
pub uninterp spec fn base64_encoded(data: Seq<u8>) -> Seq<char>;

/// The bytes standard-alphabet, padded base64 text decodes to, if it is valid.
pub uninterp spec fn base64_decoded(text: Seq<char>) -> Option<Seq<u8>>;

/// Calls `base64::engine::general_purpose::STANDARD.encode`. Claims the result
/// is the encoding, that it holds only alphabet and padding characters (so no
/// newline), and that decoding it gives the bytes back.
#[verifier::external_body]
fn base64_encode(data: &[u8]) -> (r: String)
    ensures
        r@ == base64_encoded(data@),
        !r@.contains('\n'),
        base64_decoded(r@) == Some(data@),
{
    base64::Engine::encode(&base64::engine::general_purpose::STANDARD, data)
}

/// The base64 text (standard alphabet, padded) of a text's UTF-8 bytes.
pub fn base64_text(text: &str) -> (r: String)
    ensures
        r@ == base64_encoded(encode_utf8(text@)),
        base64_decoded(r@) == Some(encode_utf8(text@)),
{
    base64_encode(text.as_bytes())
}

/// Calls `base64::engine::general_purpose::STANDARD.decode`. Claims the result
/// is the decoding, `None` when it reports an error.
#[verifier::external_body]
fn base64_decode(text: &str) -> (r: Option<Vec<u8>>)
    ensures
        match r {
            Some(v) => base64_decoded(text@) == Some(v@),
            None => base64_decoded(text@) is None,
        },
{
    match base64::Engine::decode(&base64::engine::general_purpose::STANDARD, text) {
        Ok(v) => Some(v),
        Err(_) => None,
    }
}

/// Text without its newline characters.
pub open spec fn without_newlines(s: Seq<char>) -> Seq<char>
    decreases s.len(),
{
    if s.len() == 0 {
        seq![]
    } else if s.last() == '\n' {
        without_newlines(s.drop_last())
    } else {
        without_newlines(s.drop_last()).push(s.last())
    }
}

proof fn lemma_without_newlines_id(s: Seq<char>)
    requires
        !s.contains('\n'),
    ensures
        without_newlines(s) == s,
    decreases s.len(),
{
    if s.len() > 0 {
        assert(!s.drop_last().contains('\n')) by {
            if s.drop_last().contains('\n') {
                let k = choose|k: int| 0 <= k < s.drop_last().len() && s.drop_last()[k] == '\n';
                assert(s[k] == '\n');
            }
        }
        lemma_without_newlines_id(s.drop_last());
        assert(s.last() != '\n') by {
            if s.last() == '\n' {
                assert(s[s.len() - 1] == '\n');
            }
        }
        assert(s.drop_last().push(s.last()) =~= s);
    }
}

/// The object a fetched remote blob becomes: its base64 content, with line
/// breaks removed, decoded; `None` when it is no valid base64.
pub open spec fn blob_object(content: Seq<char>) -> Option<Seq<u8>> {
    base64_decoded(without_newlines(content))
}

/// Turns the content of a fetched remote blob into an object for the store.
pub fn ingest_blob(content: &str) -> (r: Option<StoredObject>)
    ensures
        match r {
            Some(o) => blob_object(content@) matches Some(raw) && o.hash@ == object_hash(raw)
                && o.compressed@ == zlib_encoded(raw) && zlib_decoded(o.compressed@) == Some(raw),
            None => blob_object(content@) is None,
        },
{
    let cs = chars_of(content);
    let mut t: Vec<char> = Vec::new();
    let mut i: usize = 0;
    assert(cs@.subrange(0, 0) =~= Seq::<char>::empty());
    while i < cs.len()
        invariant
            cs@ == content@,
            0 <= i <= cs@.len(),
            t@ == without_newlines(cs@.subrange(0, i as int)),
        decreases cs@.len() - i,
    {
        assert(cs@.subrange(0, i + 1).drop_last() =~= cs@.subrange(0, i as int));
        if cs[i] != '\n' {
            t.push(cs[i]);
        }
        i += 1;
    }
    assert(cs@.subrange(0, i as int) =~= cs@);
    let ts = string_of(t.as_slice());
    match base64_decode(ts.as_str()) {
        Some(raw) => Some(encode_object(raw.as_slice())),
        None => None,
    }
}

/// The base64 content uploaded for a stored object: its raw content encoded;
/// `None` when the stored bytes do not decode. Fetching that content back
/// yields an object with the same name and content.
pub fn blob_upload_content(compressed: &[u8]) -> (r: Option<String>)
    ensures
        match r {
            Some(t) => zlib_decoded(compressed@) matches Some(raw) && t@ == base64_encoded(raw)
                && blob_object(t@) == Some(raw),
            None => zlib_decoded(compressed@) is None,
        },
{
    match decode_object(compressed) {
        Some(raw) => {
            let t = base64_encode(raw.as_slice());
            proof {
                lemma_without_newlines_id(t@);
            }
            Some(t)
        },
        None => None,
    }
}

} // verus!
