use bytes::BytesMut;
use postgres_protocol::message::backend::Message;
use panda::pg::protocol::{encode_fits, BackendMessage, FrontendMessage, PgCodec, PgError, ReadyForQueryStatus};
use panda::pg::{answer, query_done, Step};

fn encoded(msg: BackendMessage) -> (Result<(), PgError>, Vec<u8>) {
    let mut codec = PgCodec::default();
    let mut dst = BytesMut::new();
    let r = codec.encode(msg, &mut dst);
    (r, dst.to_vec())
}

fn startup_bytes(version: u32, params: &[u8]) -> Vec<u8> {
    let len = (8 + params.len()) as u32;
    let mut v = len.to_be_bytes().to_vec();
    v.extend_from_slice(&version.to_be_bytes());
    v.extend_from_slice(params);
    v
}

#[test]
fn authentication_ok_frame() {
    let (r, bytes) = encoded(BackendMessage::AuthenticationOk);
    assert_eq!(r, Ok(()));
    assert_eq!(bytes, vec![b'R', 0, 0, 0, 8, 0, 0, 0, 0]);
}

#[test]
fn ready_for_query_frames_carry_the_status_byte() {
    assert_eq!(encoded(BackendMessage::ReadyForQuery(ReadyForQueryStatus::Idle)).1, vec![b'Z', 0, 0, 0, 5, b'I']);
    assert_eq!(encoded(BackendMessage::ReadyForQuery(ReadyForQueryStatus::Tran)).1, vec![b'Z', 0, 0, 0, 5, b'T']);
    assert_eq!(encoded(BackendMessage::ReadyForQuery(ReadyForQueryStatus::Error)).1, vec![b'Z', 0, 0, 0, 5, b'E']);
}

#[test]
fn empty_query_response_frame() {
    assert_eq!(encoded(BackendMessage::EmptyQueryResponse).1, vec![b'I', 0, 0, 0, 4]);
}

#[test]
fn parameter_status_frame() {
    let (r, bytes) = encoded(BackendMessage::ParameterStatus("client_encoding".to_owned(), "utf-8".to_owned()));
    assert_eq!(r, Ok(()));
    let mut expected = vec![b'S', 0, 0, 0, 26];
    expected.extend_from_slice(b"client_encoding\0utf-8\0");
    assert_eq!(bytes.len(), 27);
    assert_eq!(bytes, expected);
}

#[test]
fn parameter_status_refuses_embedded_nul() {
    let (r, bytes) = encoded(BackendMessage::ParameterStatus("a\0b".to_owned(), "x".to_owned()));
    assert_eq!(r, Err(PgError::EmbeddedNull));
    assert_eq!(bytes, vec![b'S', 0, 0, 0, 10]);
    let (r, bytes) = encoded(BackendMessage::ParameterStatus("k".to_owned(), "\0".to_owned()));
    assert_eq!(r, Err(PgError::EmbeddedNull));
    assert_eq!(bytes, vec![b'S', 0, 0, 0, 8, b'k', 0]);
}

#[test]
fn raw_bytes_are_copied_unchanged() {
    let (r, bytes) = encoded(BackendMessage::Raw(bytes::Bytes::from_static(b"N")));
    assert_eq!(r, Ok(()));
    assert_eq!(bytes, b"N".to_vec());
}

#[test]
fn encode_appends_to_what_is_there() {
    let mut codec = PgCodec::default();
    let mut dst = BytesMut::from(&b"xy"[..]);
    codec.encode(BackendMessage::EmptyQueryResponse, &mut dst).unwrap();
    assert_eq!(dst.to_vec(), vec![b'x', b'y', b'I', 0, 0, 0, 4]);
}

#[test]
fn decode_startup_message() {
    let mut codec = PgCodec::default();
    let mut src = BytesMut::from(&startup_bytes(0x30000, b"user\0bob\0database\0db\0\0")[..]);
    src.extend_from_slice(b"rest");
    assert!(!codec.decode_would_panic(&src));
    match codec.decode(&mut src).unwrap() {
        Some(FrontendMessage::StartupMessage { protocol_version, parameters }) => {
            assert_eq!(protocol_version, 0x30000);
            assert_eq!(
                parameters,
                vec![("user".to_owned(), "bob".to_owned()), ("database".to_owned(), "db".to_owned())]
            );
        }
        other => panic!("unexpected {:?}", other),
    }
    assert_eq!(src.to_vec(), b"rest".to_vec());
}

#[test]
fn decode_nothing_before_startup() {
    let mut codec = PgCodec::default();
    let mut src = BytesMut::new();
    assert!(matches!(codec.decode(&mut src), Ok(None)));
}

#[test]
fn decode_ssl_request_then_startup() {
    let mut codec = PgCodec::default();
    let mut src = BytesMut::from(&[0u8, 0, 0, 8, 0x04, 0xd2, 0x16, 0x2f][..]);
    assert!(matches!(codec.decode(&mut src), Ok(Some(FrontendMessage::SSLRequest))));
    assert!(src.is_empty());
    let mut src = BytesMut::from(&startup_bytes(0x30000, b"\0")[..]);
    match codec.decode(&mut src).unwrap() {
        Some(FrontendMessage::StartupMessage { parameters, .. }) => assert!(parameters.is_empty()),
        other => panic!("unexpected {:?}", other),
    }
}

#[test]
fn decode_refuses_other_protocol_versions() {
    let mut codec = PgCodec::default();
    let mut src = BytesMut::from(&startup_bytes(0x20000, b"\0")[..]);
    assert_eq!(codec.decode(&mut src).unwrap_err(), PgError::UnsupportedProtocolVersion(0x20000));
    let mut short = BytesMut::from(&[0u8, 0, 0, 6, 0, 3][..]);
    let mut fresh = PgCodec::default();
    assert_eq!(fresh.decode(&mut short).unwrap_err(), PgError::UnexpectedEof);
}

#[test]
fn decode_refuses_bad_utf8_in_startup_parameters() {
    let mut codec = PgCodec::default();
    let mut src = BytesMut::from(&startup_bytes(0x30000, b"\xff\0v\0\0")[..]);
    assert_eq!(codec.decode(&mut src).unwrap_err(), PgError::InvalidUtf8);
}

#[test]
fn decode_after_startup() {
    let mut codec = PgCodec::default();
    let mut src = BytesMut::from(&startup_bytes(0x30000, b"\0")[..]);
    codec.decode(&mut src).unwrap();
    let mut src = BytesMut::from(&b"X\0\0\0\x04"[..]);
    assert!(matches!(codec.decode(&mut src), Ok(Some(FrontendMessage::Terminate))));
    assert!(src.is_empty());
    let mut src = BytesMut::from(&b"Q\0\0"[..]);
    assert!(matches!(codec.decode(&mut src), Ok(None)));
    assert_eq!(src.len(), 3);
    let mut src = BytesMut::from(&b"Q\0\0\0\x02"[..]);
    assert_eq!(codec.decode(&mut src).unwrap_err(), PgError::InvalidMessageLength);
}

#[test]
fn query_text_is_read_after_the_consumed_message() {
    let mut codec = PgCodec::default();
    let mut src = BytesMut::from(&startup_bytes(0x30000, b"\0")[..]);
    codec.decode(&mut src).unwrap();
    let mut src = BytesMut::from(&b"Q\0\0\0\x06ab"[..]);
    src.extend_from_slice(b"cdef");
    assert!(!codec.decode_would_panic(&src));
    match codec.decode(&mut src).unwrap() {
        Some(FrontendMessage::Query(q)) => assert_eq!(q, "cd"),
        other => panic!("unexpected {:?}", other),
    }
    assert_eq!(src.to_vec(), b"cdef".to_vec());
}

#[test]
fn would_panic_flags_unhandled_input() {
    let codec = PgCodec::default();
    assert!(codec.decode_would_panic(&BytesMut::from(&[0u8, 0][..])));
    assert!(codec.decode_would_panic(&BytesMut::from(&[0u8, 0, 0, 9, 0][..])));
    assert!(codec.decode_would_panic(&BytesMut::from(&startup_bytes(0x30000, b"k\0v\0")[..])));
    assert!(codec.decode_would_panic(&BytesMut::from(&startup_bytes(0x30000, b"\0\0")[..])));
    assert!(!codec.decode_would_panic(&BytesMut::from(&startup_bytes(0x30000, b"\xff\0")[..])));
    let mut started = PgCodec::default();
    started.decode(&mut BytesMut::from(&startup_bytes(0x30000, b"\0")[..])).unwrap();
    assert!(started.decode_would_panic(&BytesMut::from(&b"P\0\0\0\x04"[..])));
    assert!(started.decode_would_panic(&BytesMut::from(&b"Q\0\0\0\x09ab"[..])));
    assert!(!started.decode_would_panic(&BytesMut::from(&b"X\0\0\0\x04"[..])));
}

#[test]
fn connection_answers() {
    match answer(FrontendMessage::StartupMessage { protocol_version: 0x30000, parameters: vec![] }) {
        Step::Reply(msgs) => {
            assert_eq!(msgs.len(), 3);
            assert!(matches!(msgs[0], BackendMessage::AuthenticationOk));
            assert!(matches!(&msgs[1], BackendMessage::ParameterStatus(k, v) if k == "client_encoding" && v == "utf-8"));
            assert!(matches!(msgs[2], BackendMessage::ReadyForQuery(ReadyForQueryStatus::Idle)));
        }
        _ => panic!("startup must be answered"),
    }
    match answer(FrontendMessage::SSLRequest) {
        Step::Reply(msgs) => {
            assert_eq!(msgs.len(), 1);
            assert!(matches!(&msgs[0], BackendMessage::Raw(b) if &b[..] == b"N"));
        }
        _ => panic!("SSL request must be answered"),
    }
    assert!(matches!(answer(FrontendMessage::Query("select".to_owned())), Step::RunQuery(q) if q == "select"));
    assert!(matches!(answer(FrontendMessage::Terminate), Step::Close));
    let done = query_done();
    assert!(matches!(done[0], BackendMessage::EmptyQueryResponse));
    assert!(matches!(done[1], BackendMessage::ReadyForQuery(ReadyForQueryStatus::Idle)));
}

#[test]
fn encoded_frames_parse_as_postgres_backend_messages() {
    let mut codec = PgCodec::default();
    let mut dst = BytesMut::new();
    codec.encode(BackendMessage::AuthenticationOk, &mut dst).unwrap();
    codec
        .encode(BackendMessage::ParameterStatus("client_encoding".to_owned(), "utf-8".to_owned()), &mut dst)
        .unwrap();
    codec.encode(BackendMessage::ReadyForQuery(ReadyForQueryStatus::Idle), &mut dst).unwrap();
    codec.encode(BackendMessage::EmptyQueryResponse, &mut dst).unwrap();
    assert!(matches!(Message::parse(&mut dst).unwrap(), Some(Message::AuthenticationOk)));
    match Message::parse(&mut dst).unwrap() {
        Some(Message::ParameterStatus(body)) => {
            assert_eq!(body.name().unwrap(), "client_encoding");
            assert_eq!(body.value().unwrap(), "utf-8");
        }
        _ => panic!("expected a parameter status"),
    }
    match Message::parse(&mut dst).unwrap() {
        Some(Message::ReadyForQuery(body)) => assert_eq!(body.status(), b'I'),
        _ => panic!("expected ready for query"),
    }
    assert!(matches!(Message::parse(&mut dst).unwrap(), Some(Message::EmptyQueryResponse)));
    assert!(dst.is_empty());
}

#[test]
fn encode_fits_admits_the_handled_messages() {
    let dst = BytesMut::new();
    assert!(encode_fits(&BackendMessage::AuthenticationOk, &dst));
    assert!(encode_fits(&BackendMessage::EmptyQueryResponse, &dst));
    assert!(encode_fits(&BackendMessage::ReadyForQuery(ReadyForQueryStatus::Idle), &dst));
    assert!(encode_fits(&BackendMessage::ParameterStatus("client_encoding".to_owned(), "utf-8".to_owned()), &dst));
    assert!(!encode_fits(&BackendMessage::CommandComplete, &dst));
}
