//! The PostgreSQL frontend/backend wire codec: frames the messages the server
//! sends and parses the messages a client sends.
use vstd::prelude::*;
use vstd::slice::slice_subrange;
use vstd::utf8::*;
use vstd::string::StringSliceAdditionalSpecFns;
use crate::wire::{
    be_u32, be_u32_bytes, be_i32, buf_contents, frozen_contents, buf_reserve, buf_put_u8, buf_put_u32,
    buf_extend_from_slice, frozen_as_slice, buf_len, buf_as_slice, buf_split_to, buf_advance,
    read_be_u32, read_be_u32_checked, find_byte, parse_header, str_from_utf8, first_zero,
    lemma_first_zero, lemma_first_zero_at, lemma_be_u32_roundtrip,
};

verus! {

/// Tag of a frontend `Parse` message.
pub const PARSE_TAG: u8 = 80u8;
/// Tag of a frontend simple `Query` message.
pub const QUERY_TAG: u8 = 81u8;
/// Tag of a frontend `Terminate` message.
pub const TERMINATE_TAG: u8 = 88u8;
/// Tag of a backend `Authentication*` message.
pub const AUTHENTICATION_TAG: u8 = 82u8;
/// Tag of a backend `ReadyForQuery` message.
pub const READY_FOR_QUERY_TAG: u8 = 90u8;
/// Tag of a backend `EmptyQueryResponse` message.
pub const EMPTY_QUERY_RESPONSE_TAG: u8 = 73u8;
/// Tag of a backend `ParameterStatus` message.
pub const PARAMETER_STATUS_TAG: u8 = 83u8;
/// The only protocol version served: 3.0.
pub const PROTOCOL_VERSION_3: u32 = 0x30000u32;
/// The request code a client sends in place of a protocol version to ask for SSL.
pub const SSL_REQUEST_CODE: u32 = 80877103u32;

#[verifier::external_type_specification]
#[verifier::external_body]
pub struct ExBackendMessage(postgres_protocol::message::backend::Message);

/// Errors of the codec.
#[derive(Debug, PartialEq, Eq, Structural)]
pub enum PgError {
    /// A startup message too short to hold a protocol version.
    UnexpectedEof,
    /// A startup message asking for a protocol other than 3.0.
    UnsupportedProtocolVersion(u32),
    /// Text that is not valid UTF-8.
    InvalidUtf8,
    /// A message header whose length field is below four.
    InvalidMessageLength,
    /// A string to be sent as a C string holds a NUL byte.
    EmbeddedNull,
}

/// The codec's state: whether the startup phase is over. Until it is, the
/// messages a client sends carry no leading type byte.
pub struct PgCodec {
    started: bool,
}

impl View for PgCodec {
    type V = bool;

    closed spec fn view(&self) -> bool {
        self.started
    }
}

impl Default for PgCodec {
    fn default() -> (r: Self)
        ensures
            r@ == false,
    {
        PgCodec { started: false }
    }
}

/// Transaction status reported in `ReadyForQuery`.
#[derive(Debug, PartialEq, Eq, Structural)]
pub enum ReadyForQueryStatus {
    Idle,
    Tran,
    Error,
}

/// The byte that stands for a transaction status on the wire.
pub open spec fn status_byte(s: ReadyForQueryStatus) -> u8 {
    match s {
        ReadyForQueryStatus::Idle => 73u8,
        ReadyForQueryStatus::Tran => 84u8,
        ReadyForQueryStatus::Error => 69u8,
    }
}

impl ReadyForQueryStatus {
    /// The byte that stands for this status on the wire.
    pub fn to_byte(&self) -> (b: u8)
        ensures
            b == status_byte(*self),
    {
        match self {
            ReadyForQueryStatus::Idle => 73u8,
            ReadyForQueryStatus::Tran => 84u8,
            ReadyForQueryStatus::Error => 69u8,
        }
    }
}

/// Messages the server sends.
pub enum BackendMessage {
    AuthenticationOk,
    Message(postgres_protocol::message::backend::Message),
    CommandComplete,
    EmptyQueryResponse,
    ParameterStatus(String, String),
    ReadyForQuery(ReadyForQueryStatus),
    Raw(bytes::Bytes),
}

/// Messages a client sends.
#[derive(Debug)]
pub enum FrontendMessage {
    Query(String),
    SSLRequest,
    StartupMessage { protocol_version: u32, parameters: Vec<(String, String)> },
    Terminate,
}

/// A client message as values: strings as their characters.
pub enum FrontendMsg {
    Query(Seq<char>),
    SSLRequest,
    StartupMessage { protocol_version: u32, parameters: Seq<(Seq<char>, Seq<char>)> },
    Terminate,
}

/// The characters of each key/value pair.
pub open spec fn pairs_view(v: Seq<(String, String)>) -> Seq<(Seq<char>, Seq<char>)> {
    Seq::new(v.len(), |i: int| (v[i].0@, v[i].1@))
}

impl View for FrontendMessage {
    type V = FrontendMsg;

    open spec fn view(&self) -> FrontendMsg {
        match self {
            FrontendMessage::Query(q) => FrontendMsg::Query(q@),
            FrontendMessage::SSLRequest => FrontendMsg::SSLRequest,
            FrontendMessage::StartupMessage { protocol_version, parameters } =>
                FrontendMsg::StartupMessage {
                protocol_version: *protocol_version,
                parameters: pairs_view(parameters@),
            },
            FrontendMessage::Terminate => FrontendMsg::Terminate,
        }
    }
}

// ---------------------------------------------------------------------------
// Encoding
// ---------------------------------------------------------------------------

/// A tagged message: the tag, the length (counting itself, not the tag),
/// then the body.
pub open spec fn frame(tag: u8, data: Seq<u8>) -> Seq<u8> {
    seq![tag] + be_u32_bytes((4 + data.len()) as u32) + data
}

/// The UTF-8 bytes of a string.
pub open spec fn utf8_of(s: Seq<char>) -> Seq<u8> {
    encode_utf8(s)
}

/// What `encode` appends for a message, and the error it ends with, if any.
/// A `ParameterStatus` body is the key and the value as C strings; a string
/// that holds a NUL byte stops the message after what was written before it
/// (the header, which counts the whole body, and the key if it was sound).
pub open spec fn encode_spec(msg: BackendMessage) -> (Seq<u8>, Option<PgError>) {
    match msg {
        BackendMessage::Raw(b) => (frozen_contents(b), None),
        BackendMessage::AuthenticationOk => (frame(AUTHENTICATION_TAG, seq![0u8, 0u8, 0u8, 0u8]), None),
        BackendMessage::ReadyForQuery(s) => (frame(READY_FOR_QUERY_TAG, seq![status_byte(s)]), None),
        BackendMessage::EmptyQueryResponse => (frame(EMPTY_QUERY_RESPONSE_TAG, seq![]), None),
        BackendMessage::ParameterStatus(key, value) => {
            let k = utf8_of(key@);
            let v = utf8_of(value@);
            let body = k.push(0u8) + v.push(0u8);
            let head = seq![PARAMETER_STATUS_TAG] + be_u32_bytes((4 + body.len()) as u32);
            if k.contains(0u8) {
                (head, Some(PgError::EmbeddedNull))
            } else if v.contains(0u8) {
                (head + k.push(0u8), Some(PgError::EmbeddedNull))
            } else {
                (frame(PARAMETER_STATUS_TAG, body), None)
            }
        },
        _ => (seq![], None),
    }
}

/// Room that encoding `msg` may take in the buffer, counting what a failed
/// message would have written.
pub open spec fn encode_room(msg: BackendMessage) -> int {
    match msg {
        BackendMessage::ParameterStatus(key, value) => 7int + utf8_of(key@).len() + utf8_of(
            value@,
        ).len(),
        _ => encode_spec(msg).0.len() + 5int,
    }
}

/// The messages `encode` handles (the others are not written yet and stop
/// the program), with a `ParameterStatus` body whose length fits the 32-bit
/// length field.
pub open spec fn encodable(msg: BackendMessage) -> bool {
    &&& !(msg is Message)
    &&& !(msg is CommandComplete)
    &&& msg matches BackendMessage::ParameterStatus(key, value) ==> 6 + utf8_of(key@).len()
        + utf8_of(value@).len() <= u32::MAX
}

fn write_message(dst: &mut bytes::BytesMut, tag: u8, data: &[u8])
    requires
        data@.len() <= 4,
        buf_contents(*old(dst)).len() + 5 + data@.len() <= isize::MAX,
    ensures
        buf_contents(*final(dst)) == buf_contents(*old(dst)) + frame(tag, data@),
{
    buf_reserve(dst, 5 + data.len());
    buf_put_u8(dst, tag);
    let n: u32 = data.len() as u32;
    buf_put_u32(dst, 4 + n);
    buf_extend_from_slice(dst, data);
    assert(buf_contents(*dst) =~= buf_contents(*old(dst)) + frame(tag, data@));
}

fn contains_zero(s: &[u8]) -> (b: bool)
    ensures
        b == s@.contains(0u8),
{
    let mut i: usize = 0;
    while i < s.len()
        invariant
            0 <= i <= s@.len(),
            forall|j: int| 0 <= j < i ==> s@[j] != 0u8,
        decreases s@.len() - i,
    {
        if s[i] == 0 {
            assert(s@[i as int] == 0u8);
            return true;
        }
        i = i + 1;
    }
    false
}

fn write_cstr(dst: &mut bytes::BytesMut, s: &String) -> (r: Result<(), PgError>)
    requires
        buf_contents(*old(dst)).len() + utf8_of(s@).len() + 1 <= isize::MAX,
    ensures
        utf8_of(s@).contains(0u8) ==> r == Err::<(), PgError>(PgError::EmbeddedNull) && buf_contents(
            *final(dst),
        ) == buf_contents(*old(dst)),
        !utf8_of(s@).contains(0u8) ==> r is Ok && buf_contents(*final(dst)) == buf_contents(
            *old(dst),
        ) + utf8_of(s@).push(0u8),
{
    let b = s.as_str().as_bytes();
    if contains_zero(b) {
        return Err(PgError::EmbeddedNull);
    }
    buf_extend_from_slice(dst, b);
    buf_put_u8(dst, 0);
    assert(buf_contents(*dst) =~= buf_contents(*old(dst)) + utf8_of(s@).push(0u8));
    Ok(())
}

/// Whether `encode` may be called with `msg` and `dst`: the message is one
/// it handles, and what it appends leaves the buffer within what memory can
/// hold.
pub fn encode_fits(msg: &BackendMessage, dst: &bytes::BytesMut) -> (b: bool)
    ensures
        b == (encodable(*msg) && buf_contents(*dst).len() + encode_room(*msg) <= isize::MAX),
{
    let n = buf_len(dst) as u128;
    let limit = isize::MAX as u128;
    assert(limit == isize::MAX);
    match msg {
        BackendMessage::Raw(bytes) => {
            let r = frozen_as_slice(bytes).len() as u128;
            n + r + 5 <= limit
        },
        BackendMessage::AuthenticationOk => {
            assert(encode_spec(*msg).0.len() == 9);
            n + 14 <= limit
        },
        BackendMessage::ReadyForQuery(_) => {
            assert(encode_spec(*msg).0.len() == 6);
            n + 11 <= limit
        },
        BackendMessage::EmptyQueryResponse => {
            assert(encode_spec(*msg).0.len() == 5);
            n + 10 <= limit
        },
        BackendMessage::ParameterStatus(key, value) => {
            let kb = key.as_str().as_bytes();
            let vb = value.as_str().as_bytes();
            assert(kb@ == utf8_of(key@));
            assert(vb@ == utf8_of(value@));
            let k = kb.len() as u128;
            let v = vb.len() as u128;
            6 + k + v <= u32::MAX as u128 && n + k + v + 7 <= limit
        },
        BackendMessage::Message(_) => false,
        BackendMessage::CommandComplete => false,
    }
}

impl PgCodec {
    /// Appends the wire form of `msg` to `dst`.
    pub fn encode(&mut self, msg: BackendMessage, dst: &mut bytes::BytesMut) -> (r: Result<(), PgError>)
        requires
            encodable(msg),
            buf_contents(*old(dst)).len() + encode_room(msg) <= isize::MAX,
        ensures
            final(self)@ == old(self)@,
            buf_contents(*final(dst)) == buf_contents(*old(dst)) + encode_spec(msg).0,
            match encode_spec(msg).1 {
                None => r is Ok,
                Some(e) => r == Err::<(), PgError>(e),
            },
    {
        match msg {
            BackendMessage::Raw(bytes) => {
                buf_extend_from_slice(dst, frozen_as_slice(&bytes));
            },
            BackendMessage::AuthenticationOk => {
                let zero: [u8; 4] = [0u8, 0u8, 0u8, 0u8];
                let data = zero.as_slice();
                assert(data@ =~= seq![0u8, 0u8, 0u8, 0u8]);
                write_message(dst, AUTHENTICATION_TAG, data);
            },
            BackendMessage::ReadyForQuery(status) => {
                let b: [u8; 1] = [status.to_byte()];
                let data = b.as_slice();
                assert(data@ =~= seq![status_byte(status)]);
                write_message(dst, READY_FOR_QUERY_TAG, data);
            },
            BackendMessage::EmptyQueryResponse => {
                let e: [u8; 0] = [];
                let data = e.as_slice();
                assert(data@ =~= Seq::<u8>::empty());
                write_message(dst, EMPTY_QUERY_RESPONSE_TAG, data);
            },
            BackendMessage::Message(_) => {
                assert(false);
            },
            BackendMessage::CommandComplete => {
                assert(false);
            },
            BackendMessage::ParameterStatus(key, value) => {
                let kb = key.as_str().as_bytes();
                let vb = value.as_str().as_bytes();
                let body_len = kb.len() + 1 + vb.len() + 1;
                buf_reserve(dst, 5 + body_len);
                buf_put_u8(dst, PARAMETER_STATUS_TAG);
                buf_put_u32(dst, (4 + body_len) as u32);
                assert(buf_contents(*dst) =~= buf_contents(*old(dst)) + seq![PARAMETER_STATUS_TAG]
                    + be_u32_bytes((4 + body_len) as u32));
                write_cstr(dst, &key)?;
                write_cstr(dst, &value)?;
                assert(buf_contents(*dst) =~= buf_contents(*old(dst)) + encode_spec(msg).0);
            },
        }
        Ok(())
    }
}

// ---------------------------------------------------------------------------
// Decoding
// ---------------------------------------------------------------------------

/// What reading the key/value pairs of a startup message comes to: the pairs,
/// a UTF-8 error, or a panic of the reader (a missing terminator, an empty
/// remainder, or bytes after the final terminator).
pub enum ParamsParse {
    Panics,
    BadUtf8,
    Params(Seq<(Seq<char>, Seq<char>)>),
}

/// Reads NUL-terminated key/value pairs until a lone NUL byte, which must
/// be the last byte.
pub open spec fn parse_params(rest: Seq<u8>) -> ParamsParse
    decreases rest.len(),
{
    if rest.len() == 0 {
        ParamsParse::Panics
    } else if rest[0] == 0 {
        if rest.len() == 1 {
            ParamsParse::Params(seq![])
        } else {
            ParamsParse::Panics
        }
    } else {
        let k = first_zero(rest);
        if !(0 <= k < rest.len()) {
            ParamsParse::Panics
        } else if !valid_utf8(rest.take(k)) {
            ParamsParse::BadUtf8
        } else {
            let rest2 = rest.skip(k + 1);
            let v = first_zero(rest2);
            if !(0 <= v < rest2.len()) {
                ParamsParse::Panics
            } else if !valid_utf8(rest2.take(v)) {
                ParamsParse::BadUtf8
            } else {
                match parse_params(rest2.skip(v + 1)) {
                    ParamsParse::Params(ps) => ParamsParse::Params(
                        seq![(decode_utf8(rest.take(k)), decode_utf8(rest2.take(v)))] + ps,
                    ),
                    other => other,
                }
            }
        }
    }
}

/// The body of an SSL request: the request code in place of a version.
pub open spec fn ssl_magic() -> Seq<u8> {
    be_u32_bytes(SSL_REQUEST_CODE)
}

/// What one call of `decode` comes to.
pub enum Decoded {
    /// Not enough bytes yet for a message.
    Pending,
    Message(FrontendMsg),
    Failed(PgError),
}

/// The length a startup-phase message gives itself (its first four bytes).
pub open spec fn startup_len(src: Seq<u8>) -> int {
    be_u32(src) as int
}

/// The body of a startup-phase message: the bytes after the length field.
pub open spec fn startup_body(src: Seq<u8>) -> Seq<u8> {
    src.take(startup_len(src)).skip(4)
}

/// The length field of a tagged message (the four bytes after the tag).
pub open spec fn header_len(src: Seq<u8>) -> int {
    be_i32(src.skip(1)) as int
}

/// What is left of the buffer once a tagged message's tag and its declared
/// length are dropped.
pub open spec fn after_header(src: Seq<u8>) -> Seq<u8> {
    src.skip(1 + header_len(src))
}

/// The inputs on which `decode` panics.
pub open spec fn decode_panics(started: bool, src: Seq<u8>) -> bool {
    if !started {
        &&& src.len() != 0
        &&& {
            ||| src.len() < 4
            ||| startup_len(src) > src.len()
            ||| startup_len(src) < 4
            ||| {
                let body = startup_body(src);
                &&& body != ssl_magic()
                &&& body.len() >= 4
                &&& be_u32(body) == PROTOCOL_VERSION_3
                &&& parse_params(body.skip(4)) is Panics
            }
        }
    } else {
        &&& src.len() >= 5
        &&& header_len(src) >= 4
        &&& {
            ||| 1 + header_len(src) > src.len()
            ||| after_header(src).len() < header_len(src) - 4
            ||| (src[0] != QUERY_TAG && src[0] != TERMINATE_TAG)
        }
    }
}

/// What `decode` returns, whether the startup phase is over afterwards, and
/// what is left in the buffer, on the inputs on which it does not panic.
///
/// In the startup phase a message is its length (four bytes, counting
/// themselves) and a body; the body is the SSL request code or a protocol
/// version followed by key/value pairs. Afterwards a message is a tag byte,
/// a length (counting itself) and a body; the whole message is dropped from
/// the buffer and the text of a query is taken from the bytes that follow it.
pub open spec fn decode_spec(started: bool, src: Seq<u8>) -> (Decoded, bool, Seq<u8>) {
    if !started {
        if src.len() == 0 {
            (Decoded::Pending, false, src)
        } else {
            let rest = src.skip(startup_len(src));
            let body = startup_body(src);
            if body == ssl_magic() {
                (Decoded::Message(FrontendMsg::SSLRequest), false, rest)
            } else if body.len() < 4 {
                (Decoded::Failed(PgError::UnexpectedEof), true, rest)
            } else if be_u32(body) != PROTOCOL_VERSION_3 {
                (Decoded::Failed(PgError::UnsupportedProtocolVersion(be_u32(body))), true, rest)
            } else {
                match parse_params(body.skip(4)) {
                    ParamsParse::Params(ps) => (
                        Decoded::Message(
                            FrontendMsg::StartupMessage {
                                protocol_version: PROTOCOL_VERSION_3,
                                parameters: ps,
                            },
                        ),
                        true,
                        rest,
                    ),
                    _ => (Decoded::Failed(PgError::InvalidUtf8), true, rest),
                }
            }
        }
    } else {
        if src.len() < 5 {
            (Decoded::Pending, true, src)
        } else if header_len(src) < 4 {
            (Decoded::Failed(PgError::InvalidMessageLength), true, src)
        } else {
            let rest = after_header(src);
            let data = rest.take(header_len(src) - 4);
            if src[0] == TERMINATE_TAG {
                (Decoded::Message(FrontendMsg::Terminate), true, rest)
            } else if valid_utf8(data) {
                (Decoded::Message(FrontendMsg::Query(decode_utf8(data))), true, rest)
            } else {
                (Decoded::Failed(PgError::InvalidUtf8), true, rest)
            }
        }
    }
}

/// Reads a NUL-terminated UTF-8 string off the front of `bytes` and moves
/// `bytes` past its terminator. A missing terminator is not expected here.
pub fn read_cstr<'a>(bytes: &mut &'a [u8]) -> (r: Result<&'a str, PgError>)
    requires
        first_zero(old(bytes)@) < old(bytes)@.len(),
    ensures
        ({
            let k = first_zero(old(bytes)@);
            let s = old(bytes)@.take(k);
            &&& valid_utf8(s) ==> r is Ok && r->Ok_0@ == decode_utf8(s)
            &&& !valid_utf8(s) ==> r == Err::<&'a str, PgError>(PgError::InvalidUtf8)
            &&& final(bytes)@ == old(bytes)@.skip(k + 1)
        }),
{
    proof {
        lemma_first_zero(bytes@);
    }
    let cur: &'a [u8] = *bytes;
    let n = cur.len();
    match find_byte(0, cur) {
        Some(idx) => {
            proof {
                lemma_first_zero_at(cur@, idx as int);
            }
            let s = slice_subrange(cur, 0, idx);
            assert(idx < n);
            *bytes = slice_subrange(cur, idx + 1, n);
            assert(s@ =~= cur@.take(idx as int));
            assert(bytes@ =~= cur@.skip(idx + 1));
            match str_from_utf8(s) {
                Ok(text) => Ok(text),
                Err(_) => Err(PgError::InvalidUtf8),
            }
        },
        None => {
            proof {
                lemma_first_zero_at(cur@, cur@.len() as int);
            }
            assert(false);
            Err(PgError::InvalidUtf8)
        },
    }
}

/// `pre` put in front of the pairs of a successful read.
pub open spec fn prepend_params(
    pre: Seq<(Seq<char>, Seq<char>)>,
    p: ParamsParse,
) -> ParamsParse {
    match p {
        ParamsParse::Params(ps) => ParamsParse::Params(pre + ps),
        other => other,
    }
}

fn read_params<'a>(body: &'a [u8]) -> (r: Result<Vec<(String, String)>, PgError>)
    requires
        !(parse_params(body@) is Panics),
    ensures
        match parse_params(body@) {
            ParamsParse::Params(ps) => r is Ok && pairs_view(r->Ok_0@) == ps,
            _ => r == Err::<Vec<(String, String)>, PgError>(PgError::InvalidUtf8),
        },
{
    let mut bytes: &'a [u8] = body;
    let mut parameters: Vec<(String, String)> = Vec::new();
    assert(pairs_view(parameters@) =~= Seq::<(Seq<char>, Seq<char>)>::empty());
    assert(prepend_params(pairs_view(parameters@), parse_params(bytes@)) =~= parse_params(body@)) by {
        match parse_params(body@) {
            ParamsParse::Params(ps) => {
                assert(Seq::<(Seq<char>, Seq<char>)>::empty() + ps =~= ps);
            },
            _ => {},
        }
    }
    while bytes[0] != 0
        invariant
            !(parse_params(bytes@) is Panics),
            parse_params(body@) == prepend_params(pairs_view(parameters@), parse_params(bytes@)),
        decreases bytes@.len(),
    {
        let ghost before = bytes@;
        let ghost pre = pairs_view(parameters@);
        let ghost k = first_zero(before);
        let ghost rest2 = before.skip(k + 1);
        let ghost v = first_zero(rest2);
        proof {
            lemma_first_zero(before);
        }
        let key = read_cstr(&mut bytes)?;
        proof {
            lemma_first_zero(rest2);
        }
        let value = read_cstr(&mut bytes)?;
        assert(bytes@ =~= rest2.skip(v + 1));
        let pair = (key.to_owned(), value.to_owned());
        parameters.push(pair);
        let ghost kv = (decode_utf8(before.take(k)), decode_utf8(rest2.take(v)));
        assert(pairs_view(parameters@) =~= pre + seq![kv]);
        proof {
            match parse_params(bytes@) {
                ParamsParse::Params(ps) => {
                    assert(pre + (seq![kv] + ps) =~= (pre + seq![kv]) + ps);
                },
                _ => {},
            }
        }
    }
    assert(bytes@.len() == 1);
    assert(parse_params(bytes@) == ParamsParse::Params(seq![]));
    assert(pairs_view(parameters@) + seq![] =~= pairs_view(parameters@));
    Ok(parameters)
}

impl PgCodec {
    /// Takes the next client message off the front of `src`, if the buffer
    /// holds one.
    pub fn decode(&mut self, src: &mut bytes::BytesMut) -> (r: Result<Option<FrontendMessage>, PgError>)
        requires
            !decode_panics(old(self)@, buf_contents(*old(src))),
        ensures
            ({
                let (out, started, rest) = decode_spec(old(self)@, buf_contents(*old(src)));
                &&& final(self)@ == started
                &&& buf_contents(*final(src)) == rest
                &&& match r {
                    Ok(None) => out is Pending,
                    Ok(Some(m)) => out == Decoded::Message(m@),
                    Err(e) => out == Decoded::Failed(e),
                }
            }),
    {
        let ghost src0 = buf_contents(*src);
        if !self.started {
            if buf_len(src) == 0 {
                return Ok(None);
            }
            let len = read_be_u32(buf_as_slice(src)) as usize;
            let chunk = buf_split_to(src, len);
            let chunk_bytes = buf_as_slice(&chunk);
            let body = slice_subrange(chunk_bytes, 4, chunk_bytes.len());
            assert(body@ =~= startup_body(src0));
            if body.len() == 4 && body[0] == 0x04 && body[1] == 0xd2 && body[2] == 0x16 && body[3]
                == 0x2f {
                assert(body@ =~= ssl_magic());
                return Ok(Some(FrontendMessage::SSLRequest));
            }
            assert(body@ != ssl_magic()) by {
                if body@ == ssl_magic() {
                    assert(ssl_magic()[0] == 0x04);
                    assert(ssl_magic()[1] == 0xd2);
                    assert(ssl_magic()[2] == 0x16);
                    assert(ssl_magic()[3] == 0x2f);
                }
            }
            self.started = true;
            let protocol_version = match read_be_u32_checked(body) {
                Ok(v) => v,
                Err(_) => {
                    return Err(PgError::UnexpectedEof);
                },
            };
            if protocol_version != PROTOCOL_VERSION_3 {
                return Err(PgError::UnsupportedProtocolVersion(protocol_version));
            }
            let params_bytes = slice_subrange(body, 4, body.len());
            assert(params_bytes@ =~= body@.skip(4));
            let parameters = read_params(params_bytes)?;
            let msg = FrontendMessage::StartupMessage { protocol_version, parameters };
            return Ok(Some(msg));
        }
        let header = match parse_header(buf_as_slice(src)) {
            Ok(Some(h)) => h,
            Ok(None) => {
                return Ok(None);
            },
            Err(_) => {
                return Err(PgError::InvalidMessageLength);
            },
        };
        let len = header.1 as usize;
        buf_advance(src, 1 + len);
        let rest = buf_as_slice(src);
        let data = slice_subrange(rest, 0, len - 4);
        assert(data@ =~= after_header(src0).take(header_len(src0) - 4));
        if header.0 == QUERY_TAG {
            match str_from_utf8(data) {
                Ok(text) => Ok(Some(FrontendMessage::Query(text.to_owned()))),
                Err(_) => Err(PgError::InvalidUtf8),
            }
        } else {
            Ok(Some(FrontendMessage::Terminate))
        }
    }
}

fn params_panic(body: &[u8]) -> (b: bool)
    ensures
        b == (parse_params(body@) is Panics),
{
    let mut bytes: &[u8] = body;
    loop
        invariant
            (parse_params(body@) is Panics) == (parse_params(bytes@) is Panics),
        decreases bytes@.len(),
    {
        let n = bytes.len();
        if n == 0 {
            return true;
        }
        if bytes[0] == 0 {
            return n != 1;
        }
        let ghost before = bytes@;
        proof {
            lemma_first_zero(before);
        }
        let k = match find_byte(0, bytes) {
            Some(k) => k,
            None => {
                proof {
                    lemma_first_zero_at(before, before.len() as int);
                }
                return true;
            },
        };
        proof {
            lemma_first_zero_at(before, k as int);
        }
        let key = slice_subrange(bytes, 0, k);
        assert(key@ =~= before.take(k as int));
        if str_from_utf8(key).is_err() {
            return false;
        }
        let rest2 = slice_subrange(bytes, k + 1, n);
        assert(rest2@ =~= before.skip(k + 1));
        let m = rest2.len();
        proof {
            lemma_first_zero(rest2@);
        }
        let v = match find_byte(0, rest2) {
            Some(v) => v,
            None => {
                proof {
                    lemma_first_zero_at(rest2@, rest2@.len() as int);
                }
                return true;
            },
        };
        proof {
            lemma_first_zero_at(rest2@, v as int);
        }
        let value = slice_subrange(rest2, 0, v);
        assert(value@ =~= rest2@.take(v as int));
        if str_from_utf8(value).is_err() {
            return false;
        }
        bytes = slice_subrange(rest2, v + 1, m);
        assert(bytes@ =~= rest2@.skip(v + 1));
    }
}

impl PgCodec {
    /// Whether `decode` on this buffer would hit one of the cases the codec
    /// does not handle (truncated or malformed framing, bytes after the
    /// startup parameters, or an unsupported message tag), which stop the
    /// connection.
    pub fn decode_would_panic(&self, src: &bytes::BytesMut) -> (b: bool)
        ensures
            b == decode_panics(self@, buf_contents(*src)),
    {
        let bytes = buf_as_slice(src);
        let n = bytes.len();
        if !self.started {
            if n == 0 {
                return false;
            }
            if n < 4 {
                return true;
            }
            let len = read_be_u32(bytes) as usize;
            if len > n || len < 4 {
                return true;
            }
            let body = slice_subrange(bytes, 4, len);
            assert(body@ =~= startup_body(bytes@));
            if body.len() == 4 && body[0] == 0x04 && body[1] == 0xd2 && body[2] == 0x16 && body[3]
                == 0x2f {
                assert(body@ =~= ssl_magic());
                return false;
            }
            assert(body@ != ssl_magic()) by {
                if body@ == ssl_magic() {
                    assert(ssl_magic()[0] == 0x04);
                    assert(ssl_magic()[1] == 0xd2);
                    assert(ssl_magic()[2] == 0x16);
                    assert(ssl_magic()[3] == 0x2f);
                }
            }
            if body.len() < 4 {
                return false;
            }
            if read_be_u32(body) != PROTOCOL_VERSION_3 {
                return false;
            }
            let params_bytes = slice_subrange(body, 4, body.len());
            assert(params_bytes@ =~= body@.skip(4));
            params_panic(params_bytes)
        } else {
            let header = match parse_header(bytes) {
                Ok(Some(h)) => h,
                _ => {
                    return false;
                },
            };
            let len = header.1 as usize;
            if len >= n {
                return true;
            }
            if n - (1 + len) < len - 4 {
                return true;
            }
            header.0 != QUERY_TAG && header.0 != TERMINATE_TAG
        }
    }
}

// ---------------------------------------------------------------------------
// Laws
// ---------------------------------------------------------------------------

/// A string as a client sends it: its UTF-8 bytes and a NUL.
pub open spec fn cstr_bytes(s: Seq<char>) -> Seq<u8> {
    utf8_of(s).push(0u8)
}

/// Key/value pairs as a startup message carries them, before the final NUL.
pub open spec fn params_bytes(ps: Seq<(Seq<char>, Seq<char>)>) -> Seq<u8>
    decreases ps.len(),
{
    if ps.len() == 0 {
        seq![]
    } else {
        cstr_bytes(ps[0].0) + cstr_bytes(ps[0].1) + params_bytes(ps.drop_first())
    }
}

/// A startup message as a client sends it.
pub open spec fn startup_frame(version: u32, ps: Seq<(Seq<char>, Seq<char>)>) -> Seq<u8> {
    let body = be_u32_bytes(version) + params_bytes(ps).push(0u8);
    be_u32_bytes((4 + body.len()) as u32) + body
}

/// The pairs a startup message can carry: keys are not empty and no key or
/// value holds a NUL byte.
pub open spec fn sendable_params(ps: Seq<(Seq<char>, Seq<char>)>) -> bool {
    forall|i: int|
        0 <= i < ps.len() ==> {
            &&& utf8_of(#[trigger] ps[i].0).len() > 0
            &&& !utf8_of(ps[i].0).contains(0u8)
            &&& !utf8_of(ps[i].1).contains(0u8)
        }
}

proof fn lemma_cstr_prefix(s: Seq<char>, rest: Seq<u8>)
    requires
        !utf8_of(s).contains(0u8),
    ensures
        first_zero(cstr_bytes(s) + rest) == utf8_of(s).len(),
        (cstr_bytes(s) + rest).take(utf8_of(s).len() as int) == utf8_of(s),
        (cstr_bytes(s) + rest).skip(utf8_of(s).len() + 1int) == rest,
        valid_utf8(utf8_of(s)),
        decode_utf8(utf8_of(s)) == s,
{
    let e = utf8_of(s);
    let b = cstr_bytes(s) + rest;
    assert forall|j: int| 0 <= j < e.len() implies b[j] != 0u8 by {
        assert(b[j] == e[j]);
        if e[j] == 0u8 {
            assert(e.contains(0u8));
        }
    }
    assert(b[e.len() as int] == 0u8);
    lemma_first_zero_at(b, e.len() as int);
    assert(b.take(e.len() as int) =~= e);
    assert(b.skip(e.len() + 1int) =~= rest);
    encode_utf8_valid_utf8(s);
    encode_utf8_decode_utf8(s);
}

/// The pairs a startup message carries are read back as they were sent.
#[verifier::spinoff_prover]
pub proof fn lemma_params_roundtrip(ps: Seq<(Seq<char>, Seq<char>)>)
    requires
        sendable_params(ps),
    ensures
        parse_params(params_bytes(ps).push(0u8)) == ParamsParse::Params(ps),
    decreases ps.len(),
{
    let bytes = params_bytes(ps).push(0u8);
    if ps.len() == 0 {
        assert(bytes =~= seq![0u8]);
        assert(ps =~= Seq::<(Seq<char>, Seq<char>)>::empty());
    } else {
        let (k, v) = ps[0];
        let tail = ps.drop_first();
        assert(sendable_params(tail)) by {
            assert forall|i: int| 0 <= i < tail.len() implies {
                &&& utf8_of(#[trigger] tail[i].0).len() > 0
                &&& !utf8_of(tail[i].0).contains(0u8)
                &&& !utf8_of(tail[i].1).contains(0u8)
            } by {
                assert(tail[i] == ps[i + 1]);
            }
        }
        assert(utf8_of(ps[0].0).len() > 0);
        let rest3 = params_bytes(tail).push(0u8);
        let rest2 = cstr_bytes(v) + rest3;
        assert(bytes =~= cstr_bytes(k) + rest2);
        lemma_cstr_prefix(k, rest2);
        lemma_cstr_prefix(v, rest3);
        assert(bytes[0] == utf8_of(k)[0]);
        assert(utf8_of(k)[0] != 0u8) by {
            if utf8_of(k)[0] == 0u8 {
                assert(utf8_of(k).contains(0u8));
            }
        }
        lemma_params_roundtrip(tail);
        assert(seq![(k, v)] + tail =~= ps);
    }
}

/// A startup message that a client sends is decoded, before the startup
/// phase is over, as the same message, and exactly its bytes are consumed.
pub proof fn lemma_decode_startup_roundtrip(ps: Seq<(Seq<char>, Seq<char>)>, tail: Seq<u8>)
    requires
        sendable_params(ps),
        8 + params_bytes(ps).len() + 1 <= u32::MAX,
    ensures
        !decode_panics(false, startup_frame(PROTOCOL_VERSION_3, ps) + tail),
        decode_spec(false, startup_frame(PROTOCOL_VERSION_3, ps) + tail) == (
            Decoded::Message(
                FrontendMsg::StartupMessage { protocol_version: PROTOCOL_VERSION_3, parameters: ps },
            ),
            true,
            tail,
        ),
{
    let body = be_u32_bytes(PROTOCOL_VERSION_3) + params_bytes(ps).push(0u8);
    let n = (4 + body.len()) as u32;
    let src = startup_frame(PROTOCOL_VERSION_3, ps) + tail;
    lemma_be_u32_roundtrip(n);
    lemma_be_u32_roundtrip(PROTOCOL_VERSION_3);
    assert(src.take(4) =~= be_u32_bytes(n));
    assert(be_u32(src) == be_u32(src.take(4)));
    assert(startup_len(src) == 4 + body.len());
    assert(startup_body(src) =~= body);
    assert(src.skip(startup_len(src)) =~= tail);
    assert(body.take(4) =~= be_u32_bytes(PROTOCOL_VERSION_3));
    assert(be_u32(body) == be_u32(body.take(4)));
    assert(body.skip(4) =~= params_bytes(ps).push(0u8));
    assert(body != ssl_magic()) by {
        assert(body.len() != ssl_magic().len());
    }
    lemma_params_roundtrip(ps);
}

/// An SSL request is answered as such and leaves the startup phase open.
pub proof fn lemma_decode_ssl_request(tail: Seq<u8>)
    ensures
        !decode_panics(false, be_u32_bytes(8) + ssl_magic() + tail),
        decode_spec(false, be_u32_bytes(8) + ssl_magic() + tail) == (
            Decoded::Message(FrontendMsg::SSLRequest),
            false,
            tail,
        ),
{
    let src = be_u32_bytes(8) + ssl_magic() + tail;
    lemma_be_u32_roundtrip(8);
    assert(src.take(4) =~= be_u32_bytes(8));
    assert(be_u32(src) == be_u32(src.take(4)));
    assert(startup_body(src) =~= ssl_magic());
    assert(src.skip(8) =~= tail);
}

/// After the startup phase, a `Terminate` message is decoded as such and
/// exactly its bytes are consumed.
pub proof fn lemma_decode_terminate(tail: Seq<u8>)
    ensures
        !decode_panics(true, seq![TERMINATE_TAG] + be_u32_bytes(4) + tail),
        decode_spec(true, seq![TERMINATE_TAG] + be_u32_bytes(4) + tail) == (
            Decoded::Message(FrontendMsg::Terminate),
            true,
            tail,
        ),
{
    let src = seq![TERMINATE_TAG] + be_u32_bytes(4) + tail;
    lemma_be_u32_roundtrip(4);
    assert(src.skip(1).take(4) =~= be_u32_bytes(4));
    assert(be_u32(src.skip(1)) == be_u32(src.skip(1).take(4)));
    assert(header_len(src) == 4);
    assert(after_header(src) =~= tail);
}

/// Once the startup phase is over it stays over; a call consumes a prefix of
/// the buffer, and nothing when it finds no whole message.
pub proof fn lemma_decode_progress(started: bool, src: Seq<u8>)
    requires
        !decode_panics(started, src),
    ensures
        started ==> decode_spec(started, src).1,
        exists|k: int| 0 <= k <= src.len() && decode_spec(started, src).2 == src.skip(k),
        decode_spec(started, src).0 is Pending ==> decode_spec(started, src).2 == src,
{
    if !started {
        if src.len() == 0 {
            assert(src.skip(0) =~= src);
        } else {
            assert(src.skip(startup_len(src)) == src.skip(startup_len(src)));
        }
    } else {
        if src.len() < 5 || header_len(src) < 4 {
            assert(src.skip(0) =~= src);
        } else {
            assert(after_header(src) == src.skip(1 + header_len(src)));
        }
    }
}

/// Every frame `encode` completes states its own length after the tag: the
/// length counts itself and the whole body.
pub proof fn lemma_encoded_frame_length(msg: BackendMessage)
    requires
        msg is AuthenticationOk || msg is ReadyForQuery || msg is EmptyQueryResponse
            || msg is ParameterStatus,
        encodable(msg),
        msg matches BackendMessage::ParameterStatus(k, v) ==> !utf8_of(k@).contains(0u8)
            && !utf8_of(v@).contains(0u8),
    ensures
        be_u32(encode_spec(msg).0.skip(1)) == encode_spec(msg).0.len() - 1,
        encode_spec(msg).1 is None,
{
    let out = encode_spec(msg).0;
    let data: Seq<u8> = match msg {
        BackendMessage::AuthenticationOk => seq![0u8, 0u8, 0u8, 0u8],
        BackendMessage::ReadyForQuery(s) => seq![status_byte(s)],
        BackendMessage::ParameterStatus(k, v) => utf8_of(k@).push(0u8) + utf8_of(v@).push(0u8),
        _ => seq![],
    };
    assert(4 + data.len() <= u32::MAX);
    lemma_be_u32_roundtrip((4 + data.len()) as u32);
    assert(out == frame(out[0], data));
    assert(out.skip(1).take(4) =~= be_u32_bytes((4 + data.len()) as u32));
    assert(be_u32(out.skip(1)) == be_u32(out.skip(1).take(4)));
}

} // verus!
