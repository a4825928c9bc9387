//! The client side of a rendezvous key-value store spoken over TCP: the kinds
//! of request, and the bytes of the requests that set and get a key.
use vstd::prelude::*;
use vstd::string::*;
use vstd::utf8::*;

use crate::clock::{duration_from_nanos, duration_of_nanos};

verus! {

/// The kinds of request the store understands.
#[allow(non_camel_case_types)]
#[derive(Debug, Clone, Copy, PartialEq, Eq, Structural)]
pub enum QueryType {
    VALIDATE,
    SET,
    COMPARE_SET,
    GET,
    ADD,
    CHECK,
    WAIT,
    GETNUMKEYS,
    DELETE_KEY,
    APPEND,
    MULTI_GET,
    MULTI_SET,
    CANCEL_WAIT,
    PING,
}

/// The byte that names a kind of request on the wire.
pub open spec fn query_code(q: QueryType) -> u8 {
    match q {
        QueryType::VALIDATE => 0,
        QueryType::SET => 1,
        QueryType::COMPARE_SET => 2,
        QueryType::GET => 3,
        QueryType::ADD => 4,
        QueryType::CHECK => 5,
        QueryType::WAIT => 6,
        QueryType::GETNUMKEYS => 7,
        QueryType::DELETE_KEY => 8,
        QueryType::APPEND => 9,
        QueryType::MULTI_GET => 10,
        QueryType::MULTI_SET => 11,
        QueryType::CANCEL_WAIT => 12,
        QueryType::PING => 13,
    }
}

impl QueryType {
    /// The byte that names the kind of request on the wire.
    pub fn code(&self) -> (r: u8)
        ensures
            r == query_code(*self),
    {
        match self {
            QueryType::VALIDATE => 0,
            QueryType::SET => 1,
            QueryType::COMPARE_SET => 2,
            QueryType::GET => 3,
            QueryType::ADD => 4,
            QueryType::CHECK => 5,
            QueryType::WAIT => 6,
            QueryType::GETNUMKEYS => 7,
            QueryType::DELETE_KEY => 8,
            QueryType::APPEND => 9,
            QueryType::MULTI_GET => 10,
            QueryType::MULTI_SET => 11,
            QueryType::CANCEL_WAIT => 12,
            QueryType::PING => 13,
        }
    }
}

/// The magic number that opens a session with the store.
pub const VALIDATION_MAGIC: u32 = 0x3C85F7CE;

/// How long a connection may take by default: five seconds.
pub const DEFAULT_TIMEOUT_NANOS: u64 = 5_000_000_000;

/// `n` bytes of `x`, least significant first.
pub open spec fn le_bytes(x: u64, n: nat) -> Seq<u8> {
    Seq::new(n, |i: int| ((x >> (8 * i) as u64) & 0xff) as u8)
}

/// The number whose eight bytes, least significant first, are `bytes`, as
/// a reply announces the length of a value.
pub fn length_from_le(bytes: &[u8]) -> (r: u64)
    requires
        bytes@.len() == 8,
    ensures
        le_bytes(r, 8) == bytes@,
{
    let b0 = bytes[0] as u64;
    let b1 = bytes[1] as u64;
    let b2 = bytes[2] as u64;
    let b3 = bytes[3] as u64;
    let b4 = bytes[4] as u64;
    let b5 = bytes[5] as u64;
    let b6 = bytes[6] as u64;
    let b7 = bytes[7] as u64;
    let r: u64 = b0 | (b1 << 8u64) | (b2 << 16u64) | (b3 << 24u64) | (b4 << 32u64) | (b5 << 40u64) | (b6 << 48u64) | (
    b7 << 56u64);
    assert(((r >> 0u64) & 0xff) == b0 && ((r >> 8u64) & 0xff) == b1 && ((r >> 16u64) & 0xff) == b2 && ((r >> 24u64)
        & 0xff) == b3 && ((r >> 32u64) & 0xff) == b4 && ((r >> 40u64) & 0xff) == b5 && ((r >> 48u64) & 0xff) == b6
        && ((r >> 56u64) & 0xff) == b7) by (bit_vector)
        requires
            b0 < 256 && b1 < 256 && b2 < 256 && b3 < 256 && b4 < 256 && b5 < 256 && b6 < 256 && b7 < 256,
            r == b0 | (b1 << 8u64) | (b2 << 16u64) | (b3 << 24u64) | (b4 << 32u64) | (b5 << 40u64) | (b6 << 48u64) | (
            b7 << 56u64),
    ;
    assert(le_bytes(r, 8) =~= bytes@);
    r
}

/// Eight bytes, least significant first, give back the number they were
/// taken from: no two numbers share their bytes.
pub proof fn law_le_bytes_determine_the_number(x: u64, y: u64)
    requires
        le_bytes(x, 8) == le_bytes(y, 8),
    ensures
        x == y,
{
    let bx = le_bytes(x, 8);
    let by = le_bytes(y, 8);
    assert(bx[0] == by[0] && bx[1] == by[1] && bx[2] == by[2] && bx[3] == by[3]);
    assert(bx[4] == by[4] && bx[5] == by[5] && bx[6] == by[6] && bx[7] == by[7]);
    assert(x == y) by (bit_vector)
        requires
            ((x >> 0u64) & 0xff) as u8 == ((y >> 0u64) & 0xff) as u8,
            ((x >> 8u64) & 0xff) as u8 == ((y >> 8u64) & 0xff) as u8,
            ((x >> 16u64) & 0xff) as u8 == ((y >> 16u64) & 0xff) as u8,
            ((x >> 24u64) & 0xff) as u8 == ((y >> 24u64) & 0xff) as u8,
            ((x >> 32u64) & 0xff) as u8 == ((y >> 32u64) & 0xff) as u8,
            ((x >> 40u64) & 0xff) as u8 == ((y >> 40u64) & 0xff) as u8,
            ((x >> 48u64) & 0xff) as u8 == ((y >> 48u64) & 0xff) as u8,
            ((x >> 56u64) & 0xff) as u8 == ((y >> 56u64) & 0xff) as u8,
    ;
}

/// Errors of a session with the store. Failures of the network and of the
/// clock are carried by their message.
#[derive(Debug, Clone)]
pub enum TCPStoreError {
    IOError(String),
    TimeoutError,
    ConnectionError(String),
    HandlerError(String),
}

/// A client of the store at `endpoint`; keys are stored under a prefix.
pub struct TCPStore {
    endpoint: String,
    keyprefix: String,
    timeout_duration: Option<std::time::Duration>,
}

fn push_le(out: &mut Vec<u8>, x: u64, n: usize)
    requires
        n <= 8,
    ensures
        final(out)@ == old(out)@ + le_bytes(x, n as nat),
{
    let mut i: usize = 0;
    while i < n
        invariant
            i <= n <= 8,
            out@ == old(out)@ + le_bytes(x, i as nat),
        decreases n - i,
    {
        let shift: u64 = 8 * (i as u64);
        let b: u8 = ((x >> shift) & 0xff) as u8;
        out.push(b);
        assert(out@ =~= old(out)@ + le_bytes(x, (i + 1) as nat));
        i = i + 1;
    }
}

fn push_bytes(out: &mut Vec<u8>, bytes: &[u8])
    ensures
        final(out)@ == old(out)@ + bytes@,
{
    let mut i: usize = 0;
    while i < bytes.len()
        invariant
            i <= bytes@.len(),
            out@ == old(out)@ + bytes@.take(i as int),
        decreases bytes.len() - i,
    {
        out.push(bytes[i]);
        assert(out@ =~= old(out)@ + bytes@.take(i + 1));
        i = i + 1;
    }
    assert(bytes@.take(bytes@.len() as int) =~= bytes@);
}

/// The bytes that open a session: a validation request with the magic
/// number, then a ping.
pub open spec fn handshake_spec() -> Seq<u8> {
    seq![query_code(QueryType::VALIDATE)] + le_bytes(VALIDATION_MAGIC as u64, 4) + seq![
        query_code(QueryType::PING),
    ] + le_bytes(0, 4)
}

/// The bytes of a key: its length in bytes, eight bytes least significant
/// first, then the prefix and the key.
pub open spec fn key_frame(prefix: Seq<u8>, key: Seq<u8>) -> Seq<u8> {
    le_bytes((prefix.len() + key.len()) as u64, 8) + prefix + key
}

/// The bytes of a request to set `key` to `value`.
pub open spec fn set_request_spec(prefix: Seq<u8>, key: Seq<u8>, value: Seq<u8>) -> Seq<u8> {
    seq![query_code(QueryType::SET)] + key_frame(prefix, key) + le_bytes(value.len() as u64, 8) + value
}

/// The bytes of a request to get `key`.
pub open spec fn get_request_spec(prefix: Seq<u8>, key: Seq<u8>) -> Seq<u8> {
    seq![query_code(QueryType::GET)] + key_frame(prefix, key)
}

/// Distinct kinds of request are sent with distinct bytes.
pub proof fn law_query_codes_differ(a: QueryType, b: QueryType)
    ensures
        query_code(a) == query_code(b) ==> a == b,
{
}

/// A set request can be read back: two set requests with the same prefix
/// that are the same bytes set the same key to the same value.
pub proof fn law_set_request_determines_key_and_value(
    prefix: Seq<u8>,
    k1: Seq<u8>,
    v1: Seq<u8>,
    k2: Seq<u8>,
    v2: Seq<u8>,
)
    requires
        prefix.len() + k1.len() <= u64::MAX,
        prefix.len() + k2.len() <= u64::MAX,
        v1.len() <= u64::MAX,
        v2.len() <= u64::MAX,
        set_request_spec(prefix, k1, v1) == set_request_spec(prefix, k2, v2),
    ensures
        k1 == k2,
        v1 == v2,
{
    let r1 = set_request_spec(prefix, k1, v1);
    let r2 = set_request_spec(prefix, k2, v2);
    let n1 = (prefix.len() + k1.len()) as u64;
    let n2 = (prefix.len() + k2.len()) as u64;
    assert(r1.subrange(1, 9) =~= le_bytes(n1, 8));
    assert(r2.subrange(1, 9) =~= le_bytes(n2, 8));
    law_le_bytes_determine_the_number(n1, n2);
    assert(k1.len() == k2.len());
    let b: int = 9 + prefix.len() as int;
    let e: int = b + k1.len() as int;
    assert(r1.subrange(b, e) =~= k1);
    assert(r2.subrange(b, e) =~= k2);
    let m1 = v1.len() as u64;
    let m2 = v2.len() as u64;
    assert(r1.subrange(e, e + 8) =~= le_bytes(m1, 8));
    assert(r2.subrange(e, e + 8) =~= le_bytes(m2, 8));
    law_le_bytes_determine_the_number(m1, m2);
    assert(r1.subrange(e + 8, r1.len() as int) =~= v1);
    assert(r2.subrange(e + 8, r2.len() as int) =~= v2);
}

/// The text that `String::from_utf8_lossy` makes of `bytes`.
pub uninterp spec fn utf8_lossy(bytes: Seq<u8>) -> Seq<char>;

/// `String::from_utf8_lossy`: bytes that are valid UTF-8 read as the text
/// they encode; other bytes read with replacement characters, which is not
/// stated further.
#[verifier::external_body]
fn text_of_bytes(bytes: &[u8]) -> (r: String)
    ensures
        r@ == utf8_lossy(bytes@),
        valid_utf8(bytes@) ==> r@ == decode_utf8(bytes@),
{
    String::from_utf8_lossy(bytes).to_string()
}

impl TCPStore {
    /// The endpoint the client connects to.
    pub closed spec fn endpoint_spec(&self) -> Seq<char> {
        self.endpoint@
    }

    /// The prefix put before every key.
    pub closed spec fn prefix_spec(&self) -> Seq<char> {
        self.keyprefix@
    }

    /// How long a connection may take, if it is limited.
    pub closed spec fn timeout_spec(&self) -> Option<std::time::Duration> {
        self.timeout_duration
    }

    /// A client of the store at `endpoint`, with keys under `/` and a
    /// connection timeout of five seconds.
    pub fn new(endpoint: String) -> (r: TCPStore)
        ensures
            r.endpoint_spec() == endpoint@,
            r.prefix_spec() == "/"@,
            r.timeout_spec() == Some(duration_of_nanos(DEFAULT_TIMEOUT_NANOS)),
    {
        TCPStore {
            endpoint,
            keyprefix: String::from_str("/"),
            timeout_duration: Some(duration_from_nanos(DEFAULT_TIMEOUT_NANOS)),
        }
    }

    /// The same client with the given connection timeout.
    pub fn with_timeout(self, timeout_duration: std::time::Duration) -> (r: TCPStore)
        ensures
            r.endpoint_spec() == self.endpoint_spec(),
            r.prefix_spec() == self.prefix_spec(),
            r.timeout_spec() == Some(timeout_duration),
    {
        let mut s = self;
        s.timeout_duration = Some(timeout_duration);
        s
    }

    /// The same client with no connection timeout.
    pub fn with_no_timeout(self) -> (r: TCPStore)
        ensures
            r.endpoint_spec() == self.endpoint_spec(),
            r.prefix_spec() == self.prefix_spec(),
            r.timeout_spec() is None,
    {
        let mut s = self;
        s.timeout_duration = None;
        s
    }

    /// The endpoint the client connects to.
    pub fn endpoint(&self) -> (r: &str)
        ensures
            r@ == self.endpoint_spec(),
    {
        self.endpoint.as_str()
    }

    /// How long a connection may take, if it is limited.
    pub fn timeout(&self) -> (r: Option<std::time::Duration>)
        ensures
            r == self.timeout_spec(),
    {
        self.timeout_duration
    }

    /// The bytes that open a session with the store.
    pub fn handshake() -> (r: Vec<u8>)
        ensures
            r@ == handshake_spec(),
    {
        let mut out: Vec<u8> = Vec::new();
        out.push(QueryType::VALIDATE.code());
        push_le(&mut out, VALIDATION_MAGIC as u64, 4);
        out.push(QueryType::PING.code());
        push_le(&mut out, 0, 4);
        assert(out@ =~= handshake_spec());
        out
    }

    fn push_key(&self, out: &mut Vec<u8>, key: &str)
        requires
            encode_utf8(self.prefix_spec()).len() + encode_utf8(key@).len() <= usize::MAX,
        ensures
            final(out)@ == old(out)@ + key_frame(encode_utf8(self.prefix_spec()), encode_utf8(key@)),
    {
        let prefix = self.keyprefix.as_str().as_bytes();
        let kb = key.as_bytes();
        let total: usize = prefix.len() + kb.len();
        push_le(out, total as u64, 8);
        push_bytes(out, prefix);
        push_bytes(out, kb);
        assert(out@ =~= old(out)@ + key_frame(encode_utf8(self.prefix_spec()), encode_utf8(key@)));
    }

    /// The bytes of a request to set `key` to `value`: the kind, the key
    /// under the prefix, then the value's length in bytes and the value.
    pub fn set_request(&self, key: &str, value: &str) -> (r: Vec<u8>)
        requires
            encode_utf8(self.prefix_spec()).len() + encode_utf8(key@).len() <= usize::MAX,
        ensures
            r@ == set_request_spec(encode_utf8(self.prefix_spec()), encode_utf8(key@), encode_utf8(value@)),
    {
        let mut out: Vec<u8> = Vec::new();
        out.push(QueryType::SET.code());
        self.push_key(&mut out, key);
        let vb = value.as_bytes();
        push_le(&mut out, vb.len() as u64, 8);
        push_bytes(&mut out, vb);
        assert(out@ =~= set_request_spec(encode_utf8(self.prefix_spec()), encode_utf8(key@), encode_utf8(value@)));
        out
    }

    /// The bytes of a request to get `key`: the kind, then the key under the
    /// prefix.
    pub fn get_request(&self, key: &str) -> (r: Vec<u8>)
        requires
            encode_utf8(self.prefix_spec()).len() + encode_utf8(key@).len() <= usize::MAX,
        ensures
            r@ == get_request_spec(encode_utf8(self.prefix_spec()), encode_utf8(key@)),
    {
        let mut out: Vec<u8> = Vec::new();
        out.push(QueryType::GET.code());
        self.push_key(&mut out, key);
        assert(out@ =~= get_request_spec(encode_utf8(self.prefix_spec()), encode_utf8(key@)));
        out
    }

    /// The value of a reply to a get: `expected` bytes were announced and
    /// `read` bytes arrived into `buffer`. Fewer bytes than announced is an
    /// error; else the bytes read as text, invalid UTF-8 replaced.
    pub fn decode_value(expected: u64, buffer: &[u8], read: usize) -> (r: Result<String, TCPStoreError>)
        requires
            read <= buffer@.len(),
        ensures
            read as u64 != expected ==> (r matches Err(TCPStoreError::HandlerError(m)) && m@
                == "Failed to read the expected number of bytes"@),
            read as u64 == expected ==> (r matches Ok(v) && v@ == utf8_lossy(buffer@.take(read as int))),
    {
        if read as u64 != expected {
            return Err(TCPStoreError::HandlerError(
                String::from_str("Failed to read the expected number of bytes"),
            ));
        }
        let got = slice_prefix(buffer, read);
        Ok(text_of_bytes(got.as_slice()))
    }
}

fn slice_prefix(buffer: &[u8], n: usize) -> (r: Vec<u8>)
    requires
        n <= buffer@.len(),
    ensures
        r@ == buffer@.take(n as int),
{
    let mut out: Vec<u8> = Vec::new();
    let mut i: usize = 0;
    while i < n
        invariant
            i <= n <= buffer@.len(),
            out@ == buffer@.take(i as int),
        decreases n - i,
    {
        out.push(buffer[i]);
        assert(out@ =~= buffer@.take(i + 1));
        i = i + 1;
    }
    out
}

} // verus!
