use kvs::codec::{decode, encode, frame_put, frame_remove, interpret, Field, Front, Member};
use kvs::replay::decode_table;
use kvs::{Command, KvsError};

fn put(key: &str, value: &str) -> Command {
    Command::Put { key: key.to_string(), value: value.to_string() }
}

fn remove(key: &str) -> Command {
    Command::Remove { key: key.to_string() }
}

fn field(name: &str, value: &str) -> Field {
    Field { name: name.to_string(), value: value.to_string() }
}

fn object(tag: &str, fields: Vec<Field>, length: usize) -> Front {
    Front::Object { members: vec![Member { tag: tag.to_string(), fields }], length }
}

fn commands(bytes: &[u8]) -> Result<Vec<Command>, KvsError> {
    decode_table(0, bytes).map(|table| table.records.into_iter().map(|r| r.command).collect())
}

#[test]
fn encode_put_gives_the_exact_text() {
    assert_eq!(
        encode(&put("a", "1")),
        Ok(b"{\"Set\":{\"key\":\"a\",\"value\":\"1\"}}".to_vec())
    );
}

#[test]
fn encode_remove_gives_the_exact_text() {
    assert_eq!(encode(&remove("a")), Ok(b"{\"Remove\":{\"key\":\"a\"}}".to_vec()));
}

#[test]
fn encode_put_with_empty_strings() {
    assert_eq!(encode(&put("", "")), Ok(b"{\"Set\":{\"key\":\"\",\"value\":\"\"}}".to_vec()));
}

#[test]
fn encode_escapes_as_json_does() {
    assert_eq!(
        encode(&put("a\"b", "c\\d\ne\u{1}")),
        Ok(b"{\"Set\":{\"key\":\"a\\\"b\",\"value\":\"c\\\\d\\ne\\u0001\"}}".to_vec())
    );
    assert_eq!(
        encode(&remove("\u{00e9}\u{1F511}")),
        Ok("{\"Remove\":{\"key\":\"\u{00e9}\u{1F511}\"}}".as_bytes().to_vec())
    );
}

#[test]
fn encode_is_what_the_json_layer_reads_back() {
    let bytes = encode(&put("k\"ey", "va\\lue")).unwrap();
    let value: serde_json::Value = serde_json::from_slice(&bytes).unwrap();
    assert_eq!(value["Set"]["key"].as_str(), Some("k\"ey"));
    assert_eq!(value["Set"]["value"].as_str(), Some("va\\lue"));
    assert_eq!(serde_json::to_string(&value).unwrap().into_bytes(), bytes);
}

#[test]
fn frames_stand_round_the_literals_as_given() {
    assert_eq!(frame_put("K", "V"), b"{\"Set\":{\"key\":K,\"value\":V}}".to_vec());
    assert_eq!(frame_remove("K"), b"{\"Remove\":{\"key\":K}}".to_vec());
}

#[test]
fn decode_inverts_encode() {
    for command in [
        put("a", "1"),
        put("", ""),
        remove("a"),
        put("key with spaces", "value\nwith\tcontrol\u{0}"),
        put("\"quoted\"", "back\\slash"),
        remove("{\"Set\":{}}"),
    ] {
        let bytes = encode(&command).unwrap();
        assert_eq!(decode(&bytes), Ok(Some((command, bytes.len()))));
    }
}

#[test]
fn decode_keeps_strings_outside_ascii() {
    let command = put("ключ", "значение \u{1F511}");
    let bytes = encode(&command).unwrap();
    assert_eq!(decode(&bytes), Ok(Some((command, bytes.len()))));
    assert_eq!(
        decode(b"{\"Set\":{\"key\":\"\\u00e9\",\"value\":\"\\ud83d\\udd11\"}}"),
        Ok(Some((put("\u{00e9}", "\u{1F511}"), 47)))
    );
}

#[test]
fn decode_reads_only_the_first_record() {
    let mut bytes = encode(&put("a", "1")).unwrap();
    bytes.extend_from_slice(&encode(&remove("b")).unwrap());
    bytes.extend_from_slice(b"anything");
    assert_eq!(decode(&bytes), Ok(Some((put("a", "1"), 31))));
    assert_eq!(decode(&bytes[31..]), Ok(Some((remove("b"), 22))));
    assert!(matches!(decode(&bytes[53..]), Err(KvsError::Serialization { .. })));
}

#[test]
fn decode_counts_white_space_before_a_record() {
    assert_eq!(decode(b" \n\t{\"Remove\":{\"key\":\"a\"}} "), Ok(Some((remove("a"), 25))));
}

#[test]
fn decode_of_nothing_is_the_end() {
    assert_eq!(decode(b""), Ok(None));
    assert_eq!(decode(b" \n\r\t"), Ok(None));
}

#[test]
fn decode_takes_fields_in_any_order_and_passes_over_others() {
    assert_eq!(
        decode(b"{\"Set\":{\"value\":\"1\",\"key\":\"a\"}}"),
        Ok(Some((put("a", "1"), 31)))
    );
    assert_eq!(
        decode(b"{\"Set\":{\"key\":\"a\",\"note\":\"x\",\"value\":\"1\"}}"),
        Ok(Some((put("a", "1"), 42)))
    );
    assert_eq!(
        decode(b"{\"Remove\":{\"key\":\"a\",\"value\":\"1\"}}"),
        Ok(Some((remove("a"), 34)))
    );
}

#[test]
fn decode_rejects_cut_text() {
    let whole = encode(&put("a", "1")).unwrap();
    for end in 1..whole.len() {
        assert!(matches!(decode(&whole[..end]), Err(KvsError::Serialization { .. })));
    }
}

#[test]
fn decode_rejects_what_is_no_object_of_objects_of_strings() {
    for text in [
        "x",
        "1",
        "null",
        "\"Set\"",
        "[]",
        "{\"Set\":1}",
        "{\"Set\":[\"a\",\"1\"]}",
        "{\"Set\":{\"key\":1,\"value\":\"1\"}}",
        "{\"Set\":{\"key\":\"a\",\"value\":null}}",
        "{\"Put\":1}",
        "{\"Set\" {\"key\":\"a\"}}",
        "{\"Set\":{\"key\":\"a\",\"value\":\"\u{1}\"}}",
    ] {
        assert!(
            matches!(decode(text.as_bytes()), Err(KvsError::Serialization { .. })),
            "{}",
            text
        );
    }
    assert!(matches!(decode(&[b'"', 0xff, b'"']), Err(KvsError::Serialization { .. })));
    assert!(matches!(
        decode(b"{\"Set\":{\"key\":\"\xff\",\"value\":\"1\"}}"),
        Err(KvsError::Serialization { .. })
    ));
}

#[test]
fn decode_rejects_a_record_without_its_fields() {
    assert_eq!(
        decode(b"{\"Set\":{\"key\":\"a\"}}"),
        Err(KvsError::Serialization { cause: "missing field".to_string() })
    );
    assert_eq!(
        decode(b"{\"Set\":{\"value\":\"a\"}}"),
        Err(KvsError::Serialization { cause: "missing field".to_string() })
    );
    assert_eq!(
        decode(b"{\"Remove\":{}}"),
        Err(KvsError::Serialization { cause: "missing field".to_string() })
    );
}

#[test]
fn decode_rejects_an_object_without_one_variant() {
    assert_eq!(
        decode(b"{}"),
        Err(KvsError::Serialization { cause: "expected an object with one variant".to_string() })
    );
    assert_eq!(
        decode(b"{\"Remove\":{\"key\":\"a\"},\"Set\":{\"key\":\"a\",\"value\":\"1\"}}"),
        Err(KvsError::Serialization { cause: "expected an object with one variant".to_string() })
    );
}

#[test]
fn decode_reports_an_unknown_variant() {
    assert_eq!(decode(b"{\"Put\":{\"key\":\"a\"}}"), Err(KvsError::UnexpectedCommandType));
    assert_eq!(decode(b"{\"Get\":{\"key\":\"a\"}}"), Err(KvsError::UnexpectedCommandType));
    assert_eq!(decode(b"{\"set\":{\"key\":\"a\",\"value\":\"1\"}}"), Err(KvsError::UnexpectedCommandType));
    assert_eq!(decode(b"{\"\":{}}"), Err(KvsError::UnexpectedCommandType));
}

#[test]
fn decode_carries_the_words_of_the_json_layer() {
    match decode(b"{\"Set\":") {
        Err(KvsError::Serialization { cause }) => {
            assert!(cause.starts_with("EOF while parsing"), "{}", cause)
        }
        other => panic!("{:?}", other),
    }
}

#[test]
fn interpret_reads_each_shape() {
    assert_eq!(interpret(Front::End), Ok(None));
    assert_eq!(
        interpret(Front::Malformed { cause: "why".to_string() }),
        Err(KvsError::Serialization { cause: "why".to_string() })
    );
    assert_eq!(
        interpret(object("Set", vec![field("key", "a"), field("value", "1")], 7)),
        Ok(Some((put("a", "1"), 7)))
    );
    assert_eq!(
        interpret(object("Set", vec![field("key", "a"), field("key", "b"), field("value", "1")], 9)),
        Ok(Some((put("a", "1"), 9)))
    );
    assert_eq!(
        interpret(object("Remove", vec![field("key", "a")], 0)),
        Ok(Some((remove("a"), 0)))
    );
    assert_eq!(
        interpret(object("Remove", vec![field("value", "a")], 3)),
        Err(KvsError::Serialization { cause: "missing field".to_string() })
    );
    assert_eq!(interpret(object("Other", vec![], 3)), Err(KvsError::UnexpectedCommandType));
    assert_eq!(
        interpret(Front::Object { members: vec![], length: 2 }),
        Err(KvsError::Serialization { cause: "expected an object with one variant".to_string() })
    );
}

#[test]
fn a_table_of_nothing_is_empty() {
    assert_eq!(commands(&[]), Ok(vec![]));
    assert_eq!(commands(b"\n\n"), Ok(vec![]));
}

#[test]
fn a_table_gives_the_commands_in_order() {
    let all = vec![put("a", "1"), remove("a"), put("b", "2"), put("a", "3")];
    let mut bytes = Vec::new();
    for command in &all {
        bytes.extend_from_slice(&encode(command).unwrap());
    }
    assert_eq!(commands(&bytes), Ok(all));
}

#[test]
fn a_table_fails_on_a_cut_last_record() {
    let mut bytes = encode(&put("a", "1")).unwrap();
    bytes.extend_from_slice(&encode(&put("b", "2")).unwrap()[..30]);
    assert!(matches!(commands(&bytes), Err(KvsError::Serialization { .. })));
}

#[test]
fn a_table_fails_on_an_unknown_variant_in_the_middle() {
    let mut bytes = encode(&put("a", "1")).unwrap();
    bytes.extend_from_slice(b"{\"Put\":{\"key\":\"a\"}}");
    bytes.extend_from_slice(&encode(&put("b", "2")).unwrap());
    assert_eq!(commands(&bytes), Err(KvsError::UnexpectedCommandType));
}

#[test]
fn command_key_is_the_key() {
    assert_eq!(put("a", "1").key(), "a");
    assert_eq!(remove("b").key(), "b");
}
