use torrent_announce::bencode::{decode, encode, is_canonical, Value};

fn bytes(s: &str) -> Vec<u8> {
    s.as_bytes().to_vec()
}

#[test]
fn encode_integers_exactly() {
    assert_eq!(encode(&Value::Int(0)), bytes("i0e"));
    assert_eq!(encode(&Value::Int(42)), bytes("i42e"));
    assert_eq!(encode(&Value::Int(-42)), bytes("i-42e"));
    assert_eq!(encode(&Value::Int(i64::MIN)), bytes("i-9223372036854775808e"));
}

#[test]
fn encode_byte_strings_exactly() {
    assert_eq!(encode(&Value::Bytes(vec![])), bytes("0:"));
    assert_eq!(encode(&Value::Bytes(bytes("spam"))), bytes("4:spam"));
}

#[test]
fn encode_sorts_dictionary_keys() {
    // the same entries inserted in two different orders give one encoding
    let d1 = Value::Dict(vec![
        (bytes("b"), Value::Int(1)),
        (bytes("a"), Value::Int(2)),
    ]);
    let d2 = Value::Dict(vec![
        (bytes("a"), Value::Int(2)),
        (bytes("b"), Value::Int(1)),
    ]);
    assert_eq!(encode(&d1), bytes("d1:ai2e1:bi1ee"));
    assert_eq!(encode(&d1), encode(&d2));
}

#[test]
fn decode_then_encode_reproduces_input() {
    let input = bytes("d3:cow3:moo4:spaml4:eggsi-7eee");
    let v = decode(&input).unwrap();
    assert_eq!(encode(&v), input);
}

#[test]
fn decode_rejects_malformed_documents() {
    assert!(decode(&bytes("")).is_err());
    assert!(decode(&bytes("4:ab")).is_err());          // length past end of input
    assert!(decode(&bytes("i12")).is_err());           // unterminated integer
    assert!(decode(&bytes("i007e")).is_err());         // leading zeros
    assert!(decode(&bytes("i-0e")).is_err());          // negative zero
    assert!(decode(&bytes("l i0e")).is_err());         // stray byte in list
    assert!(decode(&bytes("li0e")).is_err());          // unterminated list
    assert!(decode(&bytes("d3:cowe")).is_err());       // key without value
    assert!(decode(&bytes("i1ei2e")).is_err());        // trailing data
    assert!(decode(&bytes("x")).is_err());             // no value starts with x
}

#[test]
fn decode_reads_nested_structure() {
    let v = decode(&bytes("d1:ad1:bli1eeee")).unwrap();
    match v {
        Value::Dict(es) => {
            assert_eq!(es.len(), 1);
            assert_eq!(es[0].0, bytes("a"));
            match &es[0].1 {
                Value::Dict(inner) => {
                    assert_eq!(inner[0].0, bytes("b"));
                    assert!(matches!(inner[0].1, Value::List(_)));
                },
                _ => panic!("inner value should be a dictionary"),
            }
        },
        _ => panic!("top value should be a dictionary"),
    }
}

#[test]
fn canonical_form_is_recognized() {
    let sorted = decode(&bytes("d1:ai1e1:bd1:xi0eee")).unwrap();
    assert!(is_canonical(&sorted));

    let unsorted = decode(&bytes("d1:bi1e1:ai2ee")).unwrap();
    assert!(!is_canonical(&unsorted));

    let nested = decode(&bytes("ld1:bi1e1:ai2eee")).unwrap();
    assert!(!is_canonical(&nested));
}
