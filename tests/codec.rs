use dagcbor_json::{
    dag_cbor_decode, dag_cbor_encode, decode_dag_cbor, encode_dag_cbor, ipld_to_json, json_to_ipld,
    CodecError, ContentId, GenericValue, JsonNumber, JsonValue,
};

const CID_V1: &str = "bafyreidfayvfuwqa7qlnopdjiqrxzs6blmoeu4rujcjtnci5beludirz2a";
const CID_V0: &str = "QmYwAPJzv5CZsnA625s3Xf2nemtYgPpHdWEz79ojWnPbdG";

fn text(s: &str) -> GenericValue {
    GenericValue::Text(s.to_string())
}

fn jstr(s: &str) -> JsonValue {
    JsonValue::Str(s.to_string())
}

fn jint(n: u64) -> JsonValue {
    JsonValue::Number(JsonNumber::PosInt(n))
}

fn jobject(fields: Vec<(&str, JsonValue)>) -> JsonValue {
    JsonValue::Object(fields.into_iter().map(|(k, v)| (k.to_string(), v)).collect())
}

fn dict(entries: Vec<(&str, GenericValue)>) -> GenericValue {
    GenericValue::Dict(entries.into_iter().map(|(k, v)| (k.to_string(), v)).collect())
}

fn link(s: &str) -> GenericValue {
    GenericValue::Link(ContentId::parse(s).unwrap())
}

fn sample() -> GenericValue {
    dict(vec![
        ("a", GenericValue::Integer(-1000)),
        ("b", GenericValue::List(vec![
            GenericValue::Null,
            GenericValue::Bool(true),
            GenericValue::Float(1.5f64.to_bits()),
            GenericValue::Bytes(vec![1, 2, 3]),
        ])),
        ("cid", link(CID_V1)),
        ("text", text("héllo")),
    ])
}

#[test]
fn round_trip_sample() {
    let v = sample();
    let bytes = dag_cbor_encode(&v).unwrap();
    assert_eq!(dag_cbor_decode(&bytes), Ok(v));
}

#[test]
fn round_trip_scalars() {
    let values = vec![
        GenericValue::Null,
        GenericValue::Bool(false),
        GenericValue::Integer(0),
        GenericValue::Integer(23),
        GenericValue::Integer(24),
        GenericValue::Integer(-24),
        GenericValue::Integer(-25),
        GenericValue::Integer(65536),
        GenericValue::Integer(i64::MAX),
        GenericValue::Integer(i64::MIN),
        GenericValue::Float((-0.0f64).to_bits()),
        GenericValue::Float(f64::MAX.to_bits()),
        text(""),
        GenericValue::Bytes(vec![]),
        GenericValue::Bytes(vec![7; 300]),
        link(CID_V0),
    ];
    for v in values {
        let bytes = dag_cbor_encode(&v).unwrap();
        assert_eq!(dag_cbor_decode(&bytes), Ok(v));
    }
}

#[test]
fn integer_encodings_are_shortest() {
    assert_eq!(dag_cbor_encode(&GenericValue::Integer(23)), Ok(vec![0x17]));
    assert_eq!(dag_cbor_encode(&GenericValue::Integer(24)), Ok(vec![0x18, 0x18]));
    assert_eq!(dag_cbor_encode(&GenericValue::Integer(1000)), Ok(vec![0x19, 0x03, 0xe8]));
    assert_eq!(dag_cbor_encode(&GenericValue::Integer(-1)), Ok(vec![0x20]));
    assert_eq!(
        dag_cbor_encode(&GenericValue::Integer(i64::MIN)),
        Ok(vec![0x3b, 0x7f, 0xff, 0xff, 0xff, 0xff, 0xff, 0xff, 0xff])
    );
}

#[test]
fn float_and_text_encodings() {
    assert_eq!(
        dag_cbor_encode(&GenericValue::Float(1.5f64.to_bits())),
        Ok(vec![0xfb, 0x3f, 0xf8, 0, 0, 0, 0, 0, 0])
    );
    assert_eq!(dag_cbor_encode(&text("a")), Ok(vec![0x61, 0x61]));
    assert_eq!(dag_cbor_encode(&GenericValue::Bool(true)), Ok(vec![0xf5]));
    assert_eq!(dag_cbor_encode(&GenericValue::Null), Ok(vec![0xf6]));
}

#[test]
fn key_order_does_not_change_bytes() {
    let ab = jobject(vec![("a", jint(1)), ("b", jint(2))]);
    let ba = jobject(vec![("b", jint(2)), ("a", jint(1))]);
    let expected = vec![0xa2, 0x61, 0x61, 0x01, 0x61, 0x62, 0x02];
    assert_eq!(encode_dag_cbor(ab), Ok(expected.clone()));
    assert_eq!(encode_dag_cbor(ba), Ok(expected));
}

#[test]
fn encoding_twice_gives_same_bytes() {
    let v = sample();
    assert_eq!(dag_cbor_encode(&v), dag_cbor_encode(&v));
}

#[test]
fn map_keys_sort_by_bytes() {
    let j = jobject(vec![("b", jint(1)), ("aa", jint(2))]);
    assert_eq!(
        json_to_ipld(j),
        Ok(dict(vec![("aa", GenericValue::Integer(2)), ("b", GenericValue::Integer(1))]))
    );
}

#[test]
fn duplicate_keys_last_wins() {
    let j = jobject(vec![("k", jint(1)), ("k", jint(2))]);
    assert_eq!(json_to_ipld(j), Ok(dict(vec![("k", GenericValue::Integer(2))])));
}

#[test]
fn cid_field_becomes_link_and_back() {
    let v = dict(vec![("cid", link(CID_V1))]);
    let bytes = dag_cbor_encode(&v).unwrap();
    assert_eq!(&bytes[..10], &[0xa1, 0x63, 0x63, 0x69, 0x64, 0xd8, 0x2a, 0x58, 0x25, 0x00]);
    let json = decode_dag_cbor(&bytes).unwrap();
    assert_eq!(json, jobject(vec![("cid", jstr(CID_V1))]));
    assert_eq!(json_to_ipld(json), Ok(dict(vec![("cid", link(CID_V1))])));
}

#[test]
fn cid_text_form_is_canonical() {
    assert_eq!(ContentId::parse(CID_V1).unwrap().to_text(), CID_V1);
    assert_eq!(ContentId::parse(CID_V0).unwrap().to_text(), CID_V0);
    assert_eq!(ContentId::parse(CID_V1).unwrap().as_bytes()[..4], [0x01, 0x71, 0x12, 0x20]);
}

#[test]
fn link_renders_under_any_key() {
    let v = dict(vec![("other", link(CID_V1))]);
    assert_eq!(ipld_to_json(v), jobject(vec![("other", jstr(CID_V1))]));
}

#[test]
fn invalid_cid_field_fails() {
    let j = jobject(vec![("cid", jstr("not-a-valid-cid"))]);
    assert_eq!(json_to_ipld(j), Err(CodecError::CidParse));
    let j = jobject(vec![("x", jint(1)), ("cid", jstr("not-a-valid-cid"))]);
    assert_eq!(encode_dag_cbor(j), Err(CodecError::CidParse));
}

#[test]
fn cid_key_with_non_string_value_is_plain() {
    let j = jobject(vec![("cid", jint(5))]);
    assert_eq!(json_to_ipld(j), Ok(dict(vec![("cid", GenericValue::Integer(5))])));
}

#[test]
fn numeric_boundaries() {
    assert_eq!(
        json_to_ipld(jint(9223372036854775807)),
        Ok(GenericValue::Integer(9223372036854775807))
    );
    assert_eq!(
        json_to_ipld(JsonValue::Number(JsonNumber::Float(1.5f64.to_bits()))),
        Ok(GenericValue::Float(1.5f64.to_bits()))
    );
    assert_eq!(
        json_to_ipld(jint(9223372036854775808)),
        Ok(GenericValue::Float(9223372036854775808.0f64.to_bits()))
    );
    assert_eq!(
        json_to_ipld(JsonValue::Number(JsonNumber::NegInt(-5))),
        Ok(GenericValue::Integer(-5))
    );
}

#[test]
fn large_integers_round_to_nearest_float() {
    let cases: Vec<u64> = vec![
        u64::MAX,
        (1u64 << 63) + 1024,
        (1u64 << 63) + 1025,
        (1u64 << 63) + 3072,
        (1u64 << 63) + 2048,
        u64::MAX - 1024,
    ];
    for n in cases {
        assert_eq!(json_to_ipld(jint(n)), Ok(GenericValue::Float((n as f64).to_bits())));
    }
}

#[test]
fn bytes_render_as_base64_text() {
    let g = dag_cbor_decode(&[0x42, 0x01, 0x02]).unwrap();
    assert_eq!(g, GenericValue::Bytes(vec![1, 2]));
    let j = ipld_to_json(g);
    assert_eq!(j, jstr("AQI"));
    assert_eq!(json_to_ipld(j), Ok(text("AQI")));
}

#[test]
fn integers_and_floats_render_as_numbers() {
    assert_eq!(ipld_to_json(GenericValue::Integer(3)), jint(3));
    assert_eq!(ipld_to_json(GenericValue::Integer(-3)), JsonValue::Number(JsonNumber::NegInt(-3)));
    assert_eq!(
        ipld_to_json(GenericValue::Float(2.5f64.to_bits())),
        JsonValue::Number(JsonNumber::Float(2.5f64.to_bits()))
    );
}

#[test]
fn empty_containers() {
    let list = dag_cbor_encode(&GenericValue::List(vec![])).unwrap();
    let map = dag_cbor_encode(&GenericValue::Dict(vec![])).unwrap();
    assert_eq!(list, vec![0x80]);
    assert_eq!(map, vec![0xa0]);
    assert_ne!(list, map);
    assert_eq!(dag_cbor_decode(&list), Ok(GenericValue::List(vec![])));
    assert_eq!(dag_cbor_decode(&map), Ok(GenericValue::Dict(vec![])));
}

#[test]
fn truncated_input_fails() {
    let bytes = dag_cbor_encode(&sample()).unwrap();
    for k in 0..bytes.len() {
        assert_eq!(dag_cbor_decode(&bytes[..k]), Err(CodecError::Decode));
        assert_eq!(decode_dag_cbor(&bytes[..k]), Err(CodecError::Decode));
    }
}

#[test]
fn trailing_bytes_fail() {
    assert_eq!(dag_cbor_decode(&[0xf6, 0xf6]), Err(CodecError::Decode));
}

#[test]
fn non_canonical_input_fails() {
    // 5 with a one-byte argument
    assert_eq!(dag_cbor_decode(&[0x18, 0x05]), Err(CodecError::Decode));
    // a half-width float
    assert_eq!(dag_cbor_decode(&[0xf9, 0x3c, 0x00]), Err(CodecError::Decode));
    // map keys out of order
    assert_eq!(dag_cbor_decode(&[0xa2, 0x61, 0x62, 0x01, 0x61, 0x61, 0x02]), Err(CodecError::Decode));
    // repeated key
    assert_eq!(dag_cbor_decode(&[0xa2, 0x61, 0x61, 0x01, 0x61, 0x61, 0x02]), Err(CodecError::Decode));
    // indefinite-length list
    assert_eq!(dag_cbor_decode(&[0x9f, 0xff]), Err(CodecError::Decode));
    // a tag other than 42
    assert_eq!(dag_cbor_decode(&[0xc1, 0x00]), Err(CodecError::Decode));
    // invalid UTF-8 text
    assert_eq!(dag_cbor_decode(&[0x61, 0xff]), Err(CodecError::Decode));
    // an integer beyond 64 signed bits
    assert_eq!(
        dag_cbor_decode(&[0x1b, 0x80, 0, 0, 0, 0, 0, 0, 0]),
        Err(CodecError::Decode)
    );
}

#[test]
fn invalid_embedded_cid_fails() {
    assert_eq!(dag_cbor_decode(&[0xd8, 0x2a, 0x43, 0x00, 0x01, 0x02]), Err(CodecError::Decode));
    assert_eq!(dag_cbor_decode(&[0xd8, 0x2a, 0x41, 0x00]), Err(CodecError::Decode));
}

#[test]
fn unencodable_values_fail() {
    assert_eq!(dag_cbor_encode(&GenericValue::Float(f64::NAN.to_bits())), Err(CodecError::Encode));
    assert_eq!(
        dag_cbor_encode(&GenericValue::Float(f64::INFINITY.to_bits())),
        Err(CodecError::Encode)
    );
    let unsorted = dict(vec![("b", GenericValue::Null), ("a", GenericValue::Null)]);
    assert_eq!(dag_cbor_encode(&unsorted), Err(CodecError::Encode));
    let repeated = dict(vec![("a", GenericValue::Null), ("a", GenericValue::Null)]);
    assert_eq!(dag_cbor_encode(&repeated), Err(CodecError::Encode));
    let nested = GenericValue::List(vec![GenericValue::Float(f64::NAN.to_bits())]);
    assert_eq!(dag_cbor_encode(&nested), Err(CodecError::Encode));
}

#[test]
fn decode_to_json_renders_structure() {
    let bytes = dag_cbor_encode(&sample()).unwrap();
    let j = decode_dag_cbor(&bytes).unwrap();
    assert_eq!(
        j,
        jobject(vec![
            ("a", JsonValue::Number(JsonNumber::NegInt(-1000))),
            ("b", JsonValue::Array(vec![
                JsonValue::Null,
                JsonValue::Bool(true),
                JsonValue::Number(JsonNumber::Float(1.5f64.to_bits())),
                jstr("AQID"),
            ])),
            ("cid", jstr(CID_V1)),
            ("text", jstr("héllo")),
        ])
    );
}
