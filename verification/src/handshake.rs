//! The WebSocket opening handshake: recognising an upgrade request and
//! answering it with the accept key.
use vstd::prelude::*;
use vstd::string::StringExecFns;
use vstd::utf8::encode_utf8;
use base64::Engine;
use sha1::Digest;
use crate::http::Request;
use crate::text::str_eq;

verus! {

/// The GUID that RFC 6455 appends to the client's key.
pub const HASH_KEY: &'static str = "258EAFA5-E914-47DA-95CA-C5AB0DC85B11";

/// The character of the standard base64 alphabet for a six-bit value.
pub open spec fn b64_char(v: nat) -> char {
    if v < 26 {
        (65 + v) as char
    } else if v < 52 {
        (97 + v - 26) as char
    } else if v < 62 {
        (48 + v - 52) as char
    } else if v == 62 {
        '+'
    } else {
        '/'
    }
}

/// Base64 with the standard alphabet and '=' padding (RFC 4648, section 4):
/// each group of three bytes becomes four characters, and a last group of one
/// or two bytes is padded.
pub open spec fn base64_encode(s: Seq<u8>) -> Seq<char>
    decreases s.len(),
{
    if s.len() == 0 {
        Seq::empty()
    } else if s.len() == 1 {
        let a = s[0] as nat;
        seq![b64_char(a / 4), b64_char((a % 4) * 16), '=', '=']
    } else if s.len() == 2 {
        let a = s[0] as nat;
        let b = s[1] as nat;
        seq![b64_char(a / 4), b64_char((a % 4) * 16 + b / 16), b64_char((b % 16) * 4), '=']
    } else {
        let a = s[0] as nat;
        let b = s[1] as nat;
        let c = s[2] as nat;
        seq![b64_char(a / 4), b64_char((a % 4) * 16 + b / 16), b64_char((b % 16) * 4 + c / 64), b64_char(c % 64)]
            + base64_encode(s.skip(3))
    }
}

/// The SHA-1 digest of `data`.
pub uninterp spec fn sha1_digest(data: Seq<u8>) -> Seq<u8>;

/// Calls `<sha1::Sha1 as Digest>::digest`. Trusted: the result is the SHA-1
/// digest of the input, named `sha1_digest`, and it has 20 bytes (the
/// `OutputSize` of `Sha1Core` is `U20`).
#[verifier::external_body]
fn sha1(data: &[u8]) -> (r: Vec<u8>)
    ensures
        r@ == sha1_digest(data@),
        r@.len() == 20,
{
    sha1::Sha1::digest(data).to_vec()
}

/// Calls `base64::engine::general_purpose::STANDARD.encode`. Trusted: the
/// result is the standard base64 encoding with padding, as `base64_encode`
/// states. The call panics only when the encoded length overflows `usize`,
/// which `requires` rules out.
#[verifier::external_body]
fn base64_standard_encode(data: &[u8]) -> (r: String)
    requires
        data@.len() / 3 * 4 + 4 <= usize::MAX,
    ensures
        r@ == base64_encode(data@),
{
    base64::engine::general_purpose::STANDARD.encode(data)
}

/// The accept key for a client key: base64 of the SHA-1 digest of the UTF-8
/// bytes of the key followed by `HASH_KEY`.
pub open spec fn accept_key(key: Seq<char>) -> Seq<char> {
    base64_encode(sha1_digest(encode_utf8(key + HASH_KEY@)))
}

/// UTF-8 encodes a concatenation piece by piece.
pub proof fn lemma_encode_utf8_concat(a: Seq<char>, b: Seq<char>)
    ensures
        encode_utf8(a + b) == encode_utf8(a) + encode_utf8(b),
    decreases a.len(),
{
    if a.len() == 0 {
        assert(a + b =~= b);
        assert(encode_utf8(a) =~= Seq::<u8>::empty());
        assert(encode_utf8(a) + encode_utf8(b) =~= encode_utf8(b));
    } else {
        lemma_encode_utf8_concat(a.drop_first(), b);
        assert((a + b).drop_first() =~= a.drop_first() + b);
        assert((a + b)[0] == a[0]);
        assert(encode_utf8(a + b) =~= encode_utf8(a) + encode_utf8(b));
    }
}

/// The accept key hashes the client's key exactly as it came: SHA-1 is
/// applied to the UTF-8 bytes of the key, unchanged, followed by the bytes
/// of `HASH_KEY`, and the digest is written in standard base64.
pub proof fn law_accept_key_hashes_key_unchanged(key: Seq<char>)
    ensures
        accept_key(key) == base64_encode(sha1_digest(encode_utf8(key) + encode_utf8(HASH_KEY@))),
        HASH_KEY@ == "258EAFA5-E914-47DA-95CA-C5AB0DC85B11"@,
{
    lemma_encode_utf8_concat(key, HASH_KEY@);
}

/// The text that answers an upgrade request whose key gives `accept`.
pub open spec fn accept_response_text(accept: Seq<char>) -> Seq<char> {
    "HTTP/1.1 101 Switching Protocols\r\nUpgrade: websocket\r\nConnection: Upgrade\r\nSec-WebSocket-Accept: "@ + accept
        + "\r\nSec-WebSocket-Protocol: chat\r\n\n"@
}

/// The accept key for a SHA-1 digest: its standard base64 encoding.
pub fn accept_key_of_digest(digest: &[u8]) -> (r: String)
    requires
        digest@.len() / 3 * 4 + 4 <= usize::MAX,
    ensures
        r@ == base64_encode(digest@),
{
    base64_standard_encode(digest)
}

/// The accept key for `key`.
pub fn compute_accept_key(key: &str) -> (r: String)
    ensures
        r@ == accept_key(key@),
{
    let mut web_sock_key = String::from_str(key);
    web_sock_key.append(HASH_KEY);
    let digest = sha1(web_sock_key.as_str().as_bytes());
    accept_key_of_digest(digest.as_slice())
}

/// The answer to an upgrade request, given its accept key.
pub fn accept_response(accept: &str) -> (r: String)
    ensures
        r@ == accept_response_text(accept@),
{
    let mut response = String::from_str(
        "HTTP/1.1 101 Switching Protocols\r\nUpgrade: websocket\r\nConnection: Upgrade\r\nSec-WebSocket-Accept: ",
    );
    response.append(accept);
    response.append("\r\nSec-WebSocket-Protocol: chat\r\n\n");
    response
}

/// Whether the request asks for an upgrade to the WebSocket protocol: its
/// "Upgrade" header is "websocket".
pub fn is_websocket_upgrade(request: &Request) -> (r: bool)
    ensures
        r == (request.headers@.contains_key("Upgrade"@) && request.headers@["Upgrade"@] == "websocket"@),
{
    match request.headers.get("Upgrade") {
        Some(upgrade) => str_eq(upgrade.as_str(), "websocket"),
        None => false,
    }
}

/// The answer to an upgrade request, carrying the accept key of its
/// "Sec-WebSocket-Key" header.
pub fn get_accept_response(request: &Request) -> (r: String)
    requires
        request.headers@.contains_key("Sec-WebSocket-Key"@),
    ensures
        r@ == accept_response_text(accept_key(request.headers@["Sec-WebSocket-Key"@])),
{
    let key = match request.headers.get("Sec-WebSocket-Key") {
        Some(k) => k,
        None => {
            assert(false);
            return String::new();
        },
    };
    accept_response(compute_accept_key(key.as_str()).as_str())
}

} // verus!
