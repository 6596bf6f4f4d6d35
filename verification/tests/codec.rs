use kvs::codec::decode_one;
use kvs::codec::encode_command;
use kvs::Command;

fn set_cmd(key: &str, value: &str) -> Command {
    Command::SetCmd { key: key.to_string(), value: value.to_string() }
}

fn rm_cmd(key: &str) -> Command {
    Command::Rm { key: key.to_string() }
}

fn roundtrip(cmd: &Command) {
    let bytes = encode_command(cmd);
    let (decoded, end) = decode_one(&bytes, 0).expect("own encoding must decode");
    assert_eq!(end, bytes.len());
    match (cmd, &decoded) {
        (
            Command::SetCmd { key: k1, value: v1 },
            Command::SetCmd { key: k2, value: v2 },
        ) => {
            assert_eq!(k1, k2);
            assert_eq!(v1, v2);
        }
        (Command::Rm { key: k1 }, Command::Rm { key: k2 }) => assert_eq!(k1, k2),
        _ => panic!("decoded variant differs from the encoded one"),
    }
}

#[test]
fn encode_set_exact_bytes() {
    let bytes = encode_command(&set_cmd("k", "v"));
    assert_eq!(bytes, b"{\"command\":\"Set\",\"key\":\"k\",\"value\":\"v\"}".to_vec());
}

#[test]
fn encode_rm_exact_bytes() {
    let bytes = encode_command(&rm_cmd("gone"));
    assert_eq!(bytes, b"{\"command\":\"Rm\",\"key\":\"gone\"}".to_vec());
}

#[test]
fn encode_escapes_control_and_quote() {
    let bytes = encode_command(&set_cmd("a\"b", "x\ny"));
    assert_eq!(
        bytes,
        b"{\"command\":\"Set\",\"key\":\"a\\\"b\",\"value\":\"x\\u000ay\"}".to_vec()
    );
}

#[test]
fn encode_escapes_beyond_ascii() {
    // U+00E9 stays in the basic plane; U+1F600 needs a surrogate pair
    let bytes = encode_command(&set_cmd("\u{e9}", "\u{1f600}"));
    assert_eq!(
        bytes,
        b"{\"command\":\"Set\",\"key\":\"\\u00e9\",\"value\":\"\\ud83d\\ude00\"}".to_vec()
    );
}

#[test]
fn roundtrip_plain_and_unicode() {
    roundtrip(&set_cmd("key1", "value1"));
    roundtrip(&set_cmd("", ""));
    roundtrip(&set_cmd("with \"quotes\" and \\slashes\\", "newline\nand tab\t"));
    roundtrip(&set_cmd("\u{e9}\u{4e16}\u{754c}", "emoji \u{1f600}\u{1f680} end"));
    roundtrip(&set_cmd("nul \u{0} char", "del \u{7f} char"));
    roundtrip(&rm_cmd("plain"));
    roundtrip(&rm_cmd("\u{1f600}"));
}

#[test]
fn decode_consumes_one_record_of_many() {
    let mut bytes = encode_command(&set_cmd("a", "1"));
    let first_len = bytes.len();
    bytes.extend(encode_command(&rm_cmd("a")));
    let (first, end1) = decode_one(&bytes, 0).unwrap();
    assert_eq!(end1, first_len);
    assert!(matches!(first, Command::SetCmd { .. }));
    let (second, end2) = decode_one(&bytes, end1).unwrap();
    assert_eq!(end2, bytes.len());
    assert!(matches!(second, Command::Rm { .. }));
}

#[test]
fn decode_rejects_malformed() {
    assert!(decode_one(&b"garbage".to_vec(), 0).is_none());
    assert!(decode_one(&b"{\"command\":\"Set\",\"key\":\"k\"}".to_vec(), 0).is_none());
    assert!(decode_one(&b"{\"command\":\"Rm\",\"key\":\"k\"".to_vec(), 0).is_none());
    // a lone high surrogate is not a character
    assert!(decode_one(&b"{\"command\":\"Rm\",\"key\":\"\\ud800\"}".to_vec(), 0).is_none());
}

#[test]
fn decode_accepts_short_escapes() {
    let bytes = b"{\"command\":\"Set\",\"key\":\"a\\tb\",\"value\":\"c\\nd\\\\e\"}".to_vec();
    let (cmd, end) = decode_one(&bytes, 0).unwrap();
    assert_eq!(end, bytes.len());
    match cmd {
        Command::SetCmd { key, value } => {
            assert_eq!(key, "a\tb");
            assert_eq!(value, "c\nd\\e");
        }
        _ => panic!("expected a Set record"),
    }
}

#[test]
fn decodes_raw_utf8() {
    // other JSON writers emit non-ASCII characters as raw UTF-8; the decoder
    // must take them even though the encoder always escapes
    let text = "{\"command\":\"Set\",\"key\":\"k\u{e9}y\",\"value\":\"\u{4e16}\u{754c} \u{1f600} \u{7f}\"}";
    let bytes = text.as_bytes().to_vec();
    let (cmd, end) = decode_one(&bytes, 0).unwrap();
    assert_eq!(end, bytes.len());
    match cmd {
        Command::SetCmd { key, value } => {
            assert_eq!(key, "k\u{e9}y");
            assert_eq!(value, "\u{4e16}\u{754c} \u{1f600} \u{7f}");
        }
        _ => panic!("expected a Set record"),
    }
}

fn rm_with_key_bytes(key_bytes: &[u8]) -> Vec<u8> {
    let mut v = b"{\"command\":\"Rm\",\"key\":\"".to_vec();
    v.extend_from_slice(key_bytes);
    v.extend_from_slice(b"\"}");
    v
}

#[test]
fn rejects_malformed_utf8() {
    // a lone continuation byte
    assert!(decode_one(&rm_with_key_bytes(&[0x80]), 0).is_none());
    // a leading byte with no continuation
    assert!(decode_one(&rm_with_key_bytes(&[0xc3, 0x41]), 0).is_none());
    // an overlong two-byte encoding of 'A'
    assert!(decode_one(&rm_with_key_bytes(&[0xc1, 0x81]), 0).is_none());
    // a UTF-8-encoded surrogate code point
    assert!(decode_one(&rm_with_key_bytes(&[0xed, 0xa0, 0x80]), 0).is_none());
    // a value beyond the Unicode maximum
    assert!(decode_one(&rm_with_key_bytes(&[0xf4, 0x90, 0x80, 0x80]), 0).is_none());
    // a raw control byte must still be escaped
    assert!(decode_one(&rm_with_key_bytes(&[0x07]), 0).is_none());
}

#[test]
fn reopens_store_written_by_other_json_writer() {
    // a segment holding raw-UTF-8 records, as the serde_json encoder writes
    // them, replays into a working store
    let mut map = serde_json::Map::new();
    map.insert(
        "command".to_string(),
        serde_json::Value::String("Set".to_string()),
    );
    map.insert(
        "key".to_string(),
        serde_json::Value::String("caf\u{e9}".to_string()),
    );
    map.insert(
        "value".to_string(),
        serde_json::Value::String("\u{65e5}\u{672c} \u{1f980}".to_string()),
    );
    let text = serde_json::to_string(&serde_json::Value::Object(map)).unwrap();
    assert!(text.as_bytes().iter().any(|&b| b >= 0x80));
    let seg = kvs::Segment { id: 0, data: text.into_bytes() };
    let mut store = kvs::KvStore::open(vec![seg]).unwrap();
    assert_eq!(
        store.get("caf\u{e9}".to_string()).unwrap(),
        Some("\u{65e5}\u{672c} \u{1f980}".to_string())
    );
}

#[test]
fn own_records_are_valid_json() {
    let bytes = encode_command(&set_cmd("k\u{e9}y", "va\"l\u{1f600}"));
    let parsed: serde_json::Value = serde_json::from_slice(&bytes).unwrap();
    assert_eq!(parsed["command"], serde_json::Value::String("Set".to_string()));
    assert_eq!(parsed["key"], serde_json::Value::String("k\u{e9}y".to_string()));
    assert_eq!(
        parsed["value"],
        serde_json::Value::String("va\"l\u{1f600}".to_string())
    );
}

#[test]
fn decodes_json_from_other_writers() {
    // serde_json's map sorts its keys, which gives exactly the record shape
    let mut map = serde_json::Map::new();
    map.insert(
        "command".to_string(),
        serde_json::Value::String("Set".to_string()),
    );
    map.insert("key".to_string(), serde_json::Value::String("mykey".to_string()));
    map.insert(
        "value".to_string(),
        serde_json::Value::String("myvalue".to_string()),
    );
    let text = serde_json::to_string(&serde_json::Value::Object(map)).unwrap();
    let bytes = text.into_bytes();
    let (cmd, end) = decode_one(&bytes, 0).unwrap();
    assert_eq!(end, bytes.len());
    match cmd {
        Command::SetCmd { key, value } => {
            assert_eq!(key, "mykey");
            assert_eq!(value, "myvalue");
        }
        _ => panic!("expected a Set record"),
    }
}
