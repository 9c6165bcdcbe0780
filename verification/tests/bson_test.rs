use bson::serialize::Decoder as _;
use bson::{Bson, DecoderError, ErrorCode, Object, ParserError};

#[test]
fn serialize_empty() {
    let map = Object::new();
    let serialized = bson::encode(&Bson::Object(map));
    assert_eq!(serialized, vec![0x05, 0x00, 0x00, 0x00, 0x00]);
}

#[test]
fn serialize_f64() {
    let mut map = Object::new();
    map.insert("f".to_string(), Bson::Float((10f64).to_bits()));
    let serialized = bson::encode(&Bson::Object(map));
    assert_eq!(
        serialized,
        vec![
            0x10, 0x00, 0x00, 0x00, 0x01, 0x66, 0x00, 0x00, 0x00, 0x00, 0x00, 0x00, 0x00, 0x24,
            0x40, 0x00
        ]
    );
}

struct FloatStruct {
    f: f64,
}

impl bson::serialize::Decodable<bson::Decoder, DecoderError> for FloatStruct {
    fn decode(d: &mut bson::Decoder) -> Result<FloatStruct, DecoderError> {
        let len = d.read_map()?;
        let mut f = 0f64;
        let mut i = 0;
        while i < len {
            let key = d.read_str()?;
            let bits = d.read_f64()?;
            if key == "f" {
                f = f64::from_bits(bits);
            }
            i += 1;
        }
        Ok(FloatStruct { f })
    }
}

#[test]
fn deserialize_f64() {
    let v = vec![
        0x10, 0x00, 0x00, 0x00, 0x01, 0x66, 0x00, 0x00, 0x00, 0x00, 0x00, 0x00, 0x00, 0x24, 0x40,
        0x00,
    ];
    let obj: FloatStruct = bson::decode(v).unwrap();
    assert_eq!(obj.f, 10.0);
}

#[test]
fn serialize_string() {
    let mut map = Object::new();
    map.insert("string".to_string(), Bson::String("sample".to_string()));
    let serialized = bson::encode(&Bson::Object(map));
    assert_eq!(
        serialized,
        vec![
            0x18, 0x00, 0x00, 0x00, 0x02, 0x73, 0x74, 0x72, 0x69, 0x6e, 0x67, 0x00, 0x07, 0x00,
            0x00, 0x00, 0x73, 0x61, 0x6d, 0x70, 0x6c, 0x65, 0x00, 0x00
        ]
    );
}

#[test]
fn serialize_basic_mongo_document() {
    let mut doc = Object::new();
    doc.insert(
        "_id".to_string(),
        Bson::ObjectId(vec![
            0x00, 0x01, 0x02, 0x03, 0x04, 0x05, 0x06, 0x07, 0x08, 0x09, 0x0A, 0x0B,
        ]),
    );
    doc.insert("data".to_string(), Bson::String("something".to_string()));
    let serialized = bson::encode(&Bson::Object(doc));
    assert_eq!(
        serialized,
        vec![
            0x2A, 0x00, 0x00, 0x00, 0x07, 0x5f, 0x69, 0x64, 0x00, 0x00, 0x01, 0x02, 0x03, 0x04,
            0x05, 0x06, 0x07, 0x08, 0x09, 0x0A, 0x0B, 0x02, 0x64, 0x61, 0x74, 0x61, 0x00, 0x0A,
            0x00, 0x00, 0x00, 0x73, 0x6f, 0x6d, 0x65, 0x74, 0x68, 0x69, 0x6e, 0x67, 0x00, 0x00
        ]
    );
}

#[test]
fn serialize_multiple() {
    let mut map = Object::new();
    map.insert("n".to_string(), Bson::Float((1f64).to_bits()));
    map.insert("s".to_string(), Bson::String("t".to_string()));
    let serialized = bson::encode(&Bson::Object(map));
    assert_eq!(
        serialized,
        vec![
            0x19, 0x00, 0x00, 0x00, 0x01, 0x6e, 0x00, 0x00, 0x00, 0x00, 0x00, 0x00, 0x00, 0xf0,
            0x3f, 0x02, 0x73, 0x00, 0x02, 0x00, 0x00, 0x00, 0x74, 0x00, 0x00
        ]
    );
}

#[test]
fn serialize_small_embedded() {
    let mut embed = Object::new();
    embed.insert("n".to_string(), Bson::Float((1f64).to_bits()));
    let mut map = Object::new();
    map.insert("s".to_string(), Bson::String("t".to_string()));
    map.insert("o".to_string(), Bson::Object(embed));
    let serialized = bson::encode(&Bson::Object(map));
    assert_eq!(
        serialized,
        vec![
            0x21, 0x00, 0x00, 0x00, 0x03, 0x6f, 0x00, 0x10, 0x00, 0x00, 0x00, 0x01, 0x6e, 0x00,
            0x00, 0x00, 0x00, 0x00, 0x00, 0x00, 0xf0, 0x3f, 0x00, 0x02, 0x73, 0x00, 0x02, 0x00,
            0x00, 0x00, 0x74, 0x00, 0x00
        ]
    );
}

#[test]
fn serialize_embedded() {
    let mut embed = Object::new();
    embed.insert("this".to_string(), Bson::String("is embedded".to_string()));
    let mut map = Object::new();
    map.insert("hello".to_string(), Bson::String("world".to_string()));
    map.insert("another".to_string(), Bson::String("thing".to_string()));
    map.insert("number".to_string(), Bson::Float((1f64).to_bits()));
    map.insert("embedded".to_string(), Bson::Object(embed));
    let done = bson::encode(&Bson::Object(map));
    assert_eq!(
        done,
        vec![
            0x5e, 0x00, 0x00, 0x00, 0x02, 0x61, 0x6e, 0x6f, 0x74, 0x68, 0x65, 0x72, 0x00, 0x06,
            0x00, 0x00, 0x00, 0x74, 0x68, 0x69, 0x6e, 0x67, 0x00, 0x03, 0x65, 0x6d, 0x62, 0x65,
            0x64, 0x64, 0x65, 0x64, 0x00, 0x1b, 0x00, 0x00, 0x00, 0x02, 0x74, 0x68, 0x69, 0x73,
            0x00, 0x0c, 0x00, 0x00, 0x00, 0x69, 0x73, 0x20, 0x65, 0x6d, 0x62, 0x65, 0x64, 0x64,
            0x65, 0x64, 0x00, 0x00, 0x02, 0x68, 0x65, 0x6c, 0x6c, 0x6f, 0x00, 0x06, 0x00, 0x00,
            0x00, 0x77, 0x6f, 0x72, 0x6c, 0x64, 0x00, 0x01, 0x6e, 0x75, 0x6d, 0x62, 0x65, 0x72,
            0x00, 0x00, 0x00, 0x00, 0x00, 0x00, 0x00, 0xf0, 0x3f, 0x00
        ]
    );
}

// --- round trip ---------------------------------------------------------

fn sample_document() -> Object {
    let mut embed = Object::new();
    embed.insert("inner".to_string(), Bson::Int32(-5));
    let mut map = Object::new();
    map.insert("a_float".to_string(), Bson::Float((2.5f64).to_bits()));
    map.insert("b_text".to_string(), Bson::String("héllo".to_string()));
    map.insert("c_flag".to_string(), Bson::Boolean(true));
    map.insert("d_doc".to_string(), Bson::Object(embed));
    map.insert(
        "e_id".to_string(),
        Bson::ObjectId(vec![1, 2, 3, 4, 5, 6, 7, 8, 9, 10, 11, 12]),
    );
    map.insert("f_null".to_string(), Bson::Null);
    map.insert("g_int".to_string(), Bson::Int32(1234567));
    map
}

#[test]
fn round_trip_all_kinds() {
    let bytes = bson::encode(&Bson::Object(sample_document()));
    let decoded = bson::from_vec(bytes.clone()).unwrap();
    assert_eq!(decoded, Bson::Object(sample_document()));
    let reencoded = bson::encode(&decoded);
    assert_eq!(reencoded, bytes);
}

#[test]
fn insertion_order_does_not_matter() {
    let mut forward = Object::new();
    forward.insert("alpha".to_string(), Bson::Int32(1));
    forward.insert("beta".to_string(), Bson::Boolean(false));
    forward.insert("gamma".to_string(), Bson::String("x".to_string()));
    let mut backward = Object::new();
    backward.insert("gamma".to_string(), Bson::String("x".to_string()));
    backward.insert("beta".to_string(), Bson::Boolean(false));
    backward.insert("alpha".to_string(), Bson::Int32(1));
    assert_eq!(
        bson::encode(&Bson::Object(forward)),
        bson::encode(&Bson::Object(backward))
    );
}

#[test]
fn duplicate_key_overwrites() {
    let mut map = Object::new();
    map.insert("k".to_string(), Bson::Int32(1));
    map.insert("k".to_string(), Bson::Int32(2));
    let mut expect = Object::new();
    expect.insert("k".to_string(), Bson::Int32(2));
    assert_eq!(map.len(), 1);
    assert_eq!(
        bson::encode(&Bson::Object(map)),
        bson::encode(&Bson::Object(expect))
    );
}

// --- decode errors ------------------------------------------------------

#[test]
fn decode_truncated_fails() {
    // The length prefix claims sixteen bytes; the buffer ends inside the
    // element.
    let r = bson::from_vec(vec![0x10, 0x00, 0x00, 0x00, 0x01, 0x66]);
    assert!(matches!(r, Err(ParserError::TruncatedInput)));
}

#[test]
fn decode_empty_after_prefix_fails() {
    // The length prefix claims more bytes than are present, and nothing
    // follows it.
    let r = bson::from_vec(vec![0x10, 0x00, 0x00, 0x00]);
    assert!(matches!(r, Err(ParserError::TruncatedInput)));
}

#[test]
fn decode_unknown_tag_fails() {
    let r = bson::from_vec(vec![0x09, 0x00, 0x00, 0x00, 0x05, 0x61, 0x00, 0x00, 0x00]);
    assert!(matches!(
        r,
        Err(ParserError::SyntaxError(ErrorCode::UnknownTag))
    ));
}

#[test]
fn decode_wrong_length_prefix_fails() {
    // A well-formed empty document body under a wrong declared length.
    let r = bson::from_vec(vec![0x06, 0x00, 0x00, 0x00, 0x00]);
    assert!(matches!(
        r,
        Err(ParserError::SyntaxError(ErrorCode::InvalidSyntax))
    ));
}

#[test]
fn decode_empty_document() {
    let r = bson::from_vec(vec![0x05, 0x00, 0x00, 0x00, 0x00]).unwrap();
    assert_eq!(r, Bson::Object(Object::new()));
}

#[test]
fn decode_mismatched_type() {
    let bytes = bson::encode(&Bson::Object(Object::new()));
    let r: Result<bool, DecoderError> = bson::decode(bytes);
    assert!(matches!(r, Err(DecoderError::MismatchedType)));
}

#[test]
fn decode_non_ascii_string() {
    let mut map = Object::new();
    map.insert("text".to_string(), Bson::String("héllo ✓".to_string()));
    let bytes = bson::encode(&Bson::Object(map));
    let decoded = bson::from_vec(bytes).unwrap();
    match decoded {
        Bson::Object(o) => {
            let mut d = bson::Decoder::new(Bson::Object(o));
            let n = d.read_map().unwrap();
            assert_eq!(n, 1);
            let key = d.read_str().unwrap();
            assert_eq!(key, "text");
            let val = d.read_str().unwrap();
            assert_eq!(val, "héllo ✓");
        }
        _ => panic!("expected a document"),
    }
}

// --- generic framework --------------------------------------------------

#[test]
fn framework_matches_codec_on_document() {
    let map = sample_document();
    let through_framework = bson::Encoder::buffer_encode(&map).unwrap();
    let through_codec = bson::encode(&Bson::Object(sample_document()));
    assert_eq!(through_framework, through_codec);
}

#[test]
fn framework_matches_codec_on_primitives() {
    let through_framework = bson::Encoder::buffer_encode(&true).unwrap();
    let through_codec = bson::encode(&Bson::Boolean(true));
    assert_eq!(through_framework, through_codec);

    let through_framework = bson::Encoder::buffer_encode(&"sample".to_string()).unwrap();
    let through_codec = bson::encode(&Bson::String("sample".to_string()));
    assert_eq!(through_framework, through_codec);
}

#[test]
fn framework_rejects_lists() {
    let list: Vec<Bson> = vec![Bson::Boolean(true)];
    let r = bson::Encoder::buffer_encode(&list);
    assert!(matches!(r, Err(bson::EncoderError::UnsupportedType)));
}

#[test]
fn generic_decode_of_document() {
    let mut map = Object::new();
    map.insert("flag".to_string(), Bson::Boolean(true));
    let bytes = bson::encode(&Bson::Object(map.duplicate()));
    let decoded: Object = bson::decode(bytes).unwrap();
    assert_eq!(Bson::Object(decoded), Bson::Object(map));
}

// --- wire protocol ------------------------------------------------------

#[test]
fn query_message_layout() {
    let payload = bson::encode(&Bson::Object(Object::new()));
    let msg = bson::wire::build_query_message(1, 0, "test.coll", 0, 0, &payload);
    let mut expect: Vec<u8> = Vec::new();
    // total length: 16 header + 4 flags + 10 name + 4 + 4 + 5 payload = 43
    expect.extend_from_slice(&[43, 0, 0, 0]);
    expect.extend_from_slice(&[1, 0, 0, 0]);
    expect.extend_from_slice(&[0, 0, 0, 0]);
    expect.extend_from_slice(&[0xd4, 0x07, 0, 0]); // 2004
    expect.extend_from_slice(&[0, 0, 0, 0]);
    expect.extend_from_slice(b"test.coll\0");
    expect.extend_from_slice(&[0, 0, 0, 0]);
    expect.extend_from_slice(&[0, 0, 0, 0]);
    expect.extend_from_slice(&payload);
    assert_eq!(msg, expect);
}

#[test]
fn reply_header_fields() {
    let mut buf: Vec<u8> = Vec::new();
    buf.extend_from_slice(&[100, 0, 0, 0]); // messageLength
    buf.extend_from_slice(&[7, 0, 0, 0]); // requestID
    buf.extend_from_slice(&[1, 0, 0, 0]); // responseTo
    buf.extend_from_slice(&[1, 0, 0, 0]); // opCode = OP_REPLY
    buf.extend_from_slice(&[0, 0, 0, 0]); // responseFlags
    buf.extend_from_slice(&[9, 0, 0, 0, 0, 0, 0, 0]); // cursorID
    buf.extend_from_slice(&[0, 0, 0, 0]); // startingFrom
    buf.extend_from_slice(&[2, 0, 0, 0]); // numberReturned
    let rep = bson::wire::parse_reply_header(&buf).unwrap();
    assert_eq!(rep.header.message_length, 100);
    assert_eq!(rep.header.request_id, 7);
    assert_eq!(rep.header.response_to, Some(1));
    assert_eq!(rep.header.op_code, bson::wire::OP_REPLY);
    assert_eq!(rep.response_flags, 0);
    assert_eq!(rep.cursor_id, 9);
    assert_eq!(rep.starting_from, 0);
    assert_eq!(rep.number_returned, 2);
    assert!(rep.documents.is_empty());
}

#[test]
fn reply_header_too_short() {
    let r = bson::wire::parse_reply_header(&vec![0u8; 35]);
    assert!(matches!(r, Err(ParserError::TruncatedInput)));
}

#[test]
fn reply_documents_split() {
    let mut one = Object::new();
    one.insert("n".to_string(), Bson::Int32(1));
    let mut two = Object::new();
    two.insert("n".to_string(), Bson::Int32(2));
    let mut body = bson::encode(&Bson::Object(one.duplicate()));
    body.extend_from_slice(&bson::encode(&Bson::Object(two.duplicate())));
    let docs = bson::wire::parse_reply_documents(&body).unwrap();
    assert_eq!(docs.len(), 2);
    assert_eq!(docs[0], Bson::Object(one));
    assert_eq!(docs[1], Bson::Object(two));
}

#[test]
fn reply_documents_truncated() {
    let mut body = bson::encode(&Bson::Object(Object::new()));
    body.push(0x09); // a second document's length prefix begins, then nothing
    let r = bson::wire::parse_reply_documents(&body);
    assert!(matches!(r, Err(ParserError::TruncatedInput)));
}

// --- value model --------------------------------------------------------

#[test]
fn lookup_and_iteration_order() {
    let mut map = Object::new();
    map.insert("zeta".to_string(), Bson::Int32(26));
    map.insert("alpha".to_string(), Bson::Int32(1));
    map.insert("mu".to_string(), Bson::Int32(13));
    assert_eq!(map.len(), 3);
    assert_eq!(map.pair_at(0).0, "alpha");
    assert_eq!(map.pair_at(1).0, "mu");
    assert_eq!(map.pair_at(2).0, "zeta");
    assert_eq!(map.get("mu"), Some(&Bson::Int32(13)));
    assert_eq!(map.get("nu"), None);
}

#[test]
fn encodable_checks() {
    assert!(bson::is_encodable(&Bson::Object(Object::new())));
    assert!(bson::is_encodable(&Bson::Object(sample_document())));
    // An object reference must be exactly twelve bytes.
    assert!(!bson::is_encodable(&Bson::ObjectId(vec![1, 2, 3])));
    // Lists have no mapping on the wire.
    assert!(!bson::is_encodable(&Bson::List(vec![Bson::Null])));
    let mut bad = Object::new();
    bad.insert("k".to_string(), Bson::ObjectId(vec![0; 11]));
    assert!(!bson::is_encodable(&Bson::Object(bad)));
    // A key with an embedded NUL cannot travel as a cstring.
    let mut nul_key = Object::new();
    nul_key.insert("a\0b".to_string(), Bson::Null);
    assert!(!bson::is_encodable(&Bson::Object(nul_key)));
}

#[test]
fn key_order_is_lexicographic() {
    assert!(bson::value::str_lt("a", "b"));
    assert!(bson::value::str_lt("a", "ab"));
    assert!(!bson::value::str_lt("b", "a"));
    assert!(!bson::value::str_lt("a", "a"));
}
