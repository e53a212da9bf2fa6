use kv6::codec::{decode, encode, Decoded};
use kv6::resp::RespValue;

fn bulk(s: &str) -> RespValue {
    RespValue::BulkString(Some(s.to_string()))
}

fn complete(bytes: &[u8]) -> (RespValue, usize) {
    match decode(bytes) {
        Decoded::Complete(v, n) => (v, n),
        Decoded::Incomplete => panic!("incomplete"),
        Decoded::Invalid => panic!("invalid"),
    }
}

#[test]
fn encodes_each_type() {
    assert_eq!(encode(&RespValue::SimpleString("OK".to_string())), b"+OK\r\n".to_vec());
    assert_eq!(encode(&RespValue::Error("ERR x".to_string())), b"-ERR x\r\n".to_vec());
    assert_eq!(encode(&RespValue::Integer(-42)), b":-42\r\n".to_vec());
    assert_eq!(encode(&RespValue::BulkString(None)), b"$-1\r\n".to_vec());
    assert_eq!(encode(&bulk("héllo")), "$6\r\nhéllo\r\n".as_bytes().to_vec());
    assert_eq!(encode(&RespValue::Array(None)), b"*-1\r\n".to_vec());
    assert_eq!(
        encode(&RespValue::Array(Some(vec![bulk("a"), RespValue::Integer(1)]))),
        b"*2\r\n$1\r\na\r\n:1\r\n".to_vec()
    );
}

#[test]
fn decodes_what_was_encoded() {
    let values = vec![
        RespValue::SimpleString("PONG".to_string()),
        RespValue::Error("WRONGTYPE no".to_string()),
        RespValue::Integer(i64::MIN),
        RespValue::Integer(i64::MAX),
        RespValue::BulkString(None),
        bulk(""),
        bulk("line\r\nbreak"),
        RespValue::Array(None),
        RespValue::Array(Some(vec![])),
        RespValue::Array(Some(vec![bulk("SET"), bulk("k"), RespValue::Array(Some(vec![RespValue::Integer(3)]))])),
    ];
    for v in values {
        let mut bytes = encode(&v);
        let len = bytes.len();
        bytes.extend_from_slice(b"+next\r\n");
        assert_eq!(complete(&bytes), (v, len));
    }
}

#[test]
fn partial_input_asks_for_more() {
    assert!(matches!(decode(b""), Decoded::Incomplete));
    assert!(matches!(decode(b"*2\r\n$3\r\nGET\r\n"), Decoded::Incomplete));
    assert!(matches!(decode(b"$5\r\nhel"), Decoded::Incomplete));
    assert!(matches!(decode(b"+OK"), Decoded::Incomplete));
}

#[test]
fn malformed_input_is_refused() {
    assert!(matches!(decode(b":12a\r\n"), Decoded::Invalid));
    assert!(matches!(decode(b":\r\n"), Decoded::Invalid));
    assert!(matches!(decode(b":9223372036854775808\r\n"), Decoded::Invalid));
    assert!(matches!(decode(b"$-2\r\n"), Decoded::Invalid));
    assert!(matches!(decode(b"$3\r\nabcde\r\n"), Decoded::Invalid));
    assert!(matches!(decode(b"*1\r\n:x\r\n"), Decoded::Invalid));
}

#[test]
fn inline_commands_are_words() {
    assert_eq!(
        complete(b"SET  key value\r\nrest"),
        (RespValue::Array(Some(vec![bulk("SET"), bulk("key"), bulk("value")])), 16)
    );
}
