use kvs::codec::{decode_command, encode_command, str_to_chars, Command};

fn encode_to_chars(cmd: &Command) -> Vec<char> {
    let mut out: Vec<char> = Vec::new();
    encode_command(&mut out, cmd);
    out
}

#[test]
fn set_record_round_trip() {
    let cmd = Command::set("key1".to_string(), "value1".to_string());
    let data = encode_to_chars(&cmd);
    let (decoded, end) = decode_command(&data, 0).unwrap();
    assert_eq!(end, data.len());
    match decoded {
        Command::Put { key, value } => {
            assert_eq!(key, "key1");
            assert_eq!(value, "value1");
        },
        Command::Remove { .. } => panic!("decoded the wrong variant"),
    }
}

#[test]
fn remove_record_round_trip() {
    let cmd = Command::remove("some key".to_string());
    let data = encode_to_chars(&cmd);
    let (decoded, end) = decode_command(&data, 0).unwrap();
    assert_eq!(end, data.len());
    match decoded {
        Command::Remove { key } => assert_eq!(key, "some key"),
        Command::Put { .. } => panic!("decoded the wrong variant"),
    }
}

#[test]
fn escaping_round_trip() {
    let key = ";".to_string();
    let value = "\\;\\\\;;".to_string();
    let cmd = Command::set(key.clone(), value.clone());
    let data = encode_to_chars(&cmd);
    let (decoded, end) = decode_command(&data, 0).unwrap();
    assert_eq!(end, data.len());
    match decoded {
        Command::Put { key: k, value: v } => {
            assert_eq!(k, key);
            assert_eq!(v, value);
        },
        Command::Remove { .. } => panic!("decoded the wrong variant"),
    }
}

#[test]
fn records_survive_concatenation() {
    let a = Command::set("a".to_string(), "1".to_string());
    let b = Command::remove("a".to_string());
    let mut data: Vec<char> = Vec::new();
    encode_command(&mut data, &a);
    let first_end = data.len();
    encode_command(&mut data, &b);
    let (d1, e1) = decode_command(&data, 0).unwrap();
    assert_eq!(e1, first_end);
    assert!(matches!(d1, Command::Put { .. }));
    let (d2, e2) = decode_command(&data, e1).unwrap();
    assert_eq!(e2, data.len());
    match d2 {
        Command::Remove { key } => assert_eq!(key, "a"),
        Command::Put { .. } => panic!("decoded the wrong variant"),
    }
}

#[test]
fn decode_rejects_bad_input() {
    assert!(decode_command(&str_to_chars("Xab;"), 0).is_none());
    assert!(decode_command(&str_to_chars("S"), 0).is_none());
    assert!(decode_command(&str_to_chars("Skey;"), 0).is_none());
    assert!(decode_command(&str_to_chars("Skey;val"), 0).is_none());
    assert!(decode_command(&str_to_chars("Skey;va\\l;"), 0).is_none());
    assert!(decode_command(&str_to_chars(""), 0).is_none());
    assert!(decode_command(&str_to_chars("R\\"), 0).is_none());
}

#[test]
fn encoding_is_text_tagged() {
    let data = encode_to_chars(&Command::set("k".to_string(), "v".to_string()));
    let text: String = data.iter().collect();
    assert_eq!(text, "Sk;v;");
    let data2 = encode_to_chars(&Command::remove("k".to_string()));
    let text2: String = data2.iter().collect();
    assert_eq!(text2, "Rk;");
}

#[test]
fn escaped_encoding_shape() {
    let data = encode_to_chars(&Command::set("a;b".to_string(), "c\\d".to_string()));
    let text: String = data.iter().collect();
    assert_eq!(text, "Sa\\;b;c\\\\d;");
}
