use renrs::value::{
    chars_equal, decimal_string, json_to_lua_value, lua_value_to_json, ConvertError, JsonNumber,
    JsonValue, LuaError, LuaValue,
};

fn s(text: &str) -> LuaValue {
    LuaValue::Str(text.as_bytes().to_vec())
}

fn err(kind: LuaError, key: &str) -> Result<JsonValue, ConvertError> {
    Err(ConvertError { kind, key: key.to_string(), detail: String::new() })
}

#[test]
fn null_becomes_the_string_null() {
    assert_eq!(json_to_lua_value(&JsonValue::Null), s("null"));
}

#[test]
fn scalars_to_lua() {
    assert_eq!(json_to_lua_value(&JsonValue::Bool(true)), LuaValue::Boolean(true));
    assert_eq!(json_to_lua_value(&JsonValue::Number(JsonNumber::PosInt(5))), LuaValue::Integer(5));
    assert_eq!(
        json_to_lua_value(&JsonValue::Number(JsonNumber::PosInt(i64::MAX as u64))),
        LuaValue::Integer(i64::MAX)
    );
    assert_eq!(json_to_lua_value(&JsonValue::Number(JsonNumber::NegInt(-3))), LuaValue::Integer(-3));
    assert_eq!(
        json_to_lua_value(&JsonValue::Number(JsonNumber::Float(1.5f64.to_bits()))),
        LuaValue::Number(1.5f64.to_bits())
    );
    assert_eq!(json_to_lua_value(&JsonValue::Str("héllo".to_string())), s("héllo"));
}

#[test]
fn large_unsigned_becomes_the_nearest_double() {
    let cases: [u64; 8] = [
        1u64 << 63,
        (1u64 << 63) + 1,
        (1u64 << 63) + 1023,
        (1u64 << 63) + 1024,
        (1u64 << 63) + 1025,
        (1u64 << 63) + 3072,
        u64::MAX - 1024,
        u64::MAX,
    ];
    for u in cases {
        assert_eq!(
            json_to_lua_value(&JsonValue::Number(JsonNumber::PosInt(u))),
            LuaValue::Number((u as f64).to_bits()),
            "{}",
            u
        );
    }
}

#[test]
fn array_becomes_a_table_from_one() {
    let v = JsonValue::Array(vec![
        JsonValue::Number(JsonNumber::PosInt(10)),
        JsonValue::Str("a".to_string()),
    ]);
    assert_eq!(
        json_to_lua_value(&v),
        LuaValue::Table(vec![
            (LuaValue::Integer(1), LuaValue::Integer(10)),
            (LuaValue::Integer(2), s("a")),
        ])
    );
}

#[test]
fn object_becomes_a_table_by_name() {
    let v = JsonValue::Object(vec![
        ("x".to_string(), JsonValue::Bool(false)),
        ("y".to_string(), JsonValue::Null),
    ]);
    assert_eq!(
        json_to_lua_value(&v),
        LuaValue::Table(vec![(s("x"), LuaValue::Boolean(false)), (s("y"), s("null"))])
    );
}

#[test]
fn strings_to_json() {
    assert_eq!(lua_value_to_json("k", &s("text")), Ok(JsonValue::Str("text".to_string())));
    assert_eq!(lua_value_to_json("k", &s("nil")), Ok(JsonValue::Null));
    assert_eq!(lua_value_to_json("k", &s("null")), Ok(JsonValue::Null));
    assert_eq!(lua_value_to_json("k", &s("Null")), Ok(JsonValue::Str("Null".to_string())));
    assert_eq!(lua_value_to_json("k", &LuaValue::Str(vec![0xc3])), err(LuaError::NotText, "k"));
}

#[test]
fn numbers_to_json() {
    assert_eq!(
        lua_value_to_json("k", &LuaValue::Number(2.5f64.to_bits())),
        Ok(JsonValue::Number(JsonNumber::Float(2.5f64.to_bits())))
    );
    assert_eq!(lua_value_to_json("n", &LuaValue::Number(f64::NAN.to_bits())), err(LuaError::NotFinite, "n"));
    assert_eq!(
        lua_value_to_json("n", &LuaValue::Number(f64::NEG_INFINITY.to_bits())),
        err(LuaError::NotFinite, "n")
    );
    assert_eq!(
        lua_value_to_json("k", &LuaValue::Integer(-1)),
        Ok(JsonValue::Number(JsonNumber::NegInt(-1)))
    );
    assert_eq!(lua_value_to_json("k", &LuaValue::Integer(7)), Ok(JsonValue::Number(JsonNumber::PosInt(7))));
    assert_eq!(lua_value_to_json("k", &LuaValue::Boolean(false)), Ok(JsonValue::Bool(false)));
    assert_eq!(lua_value_to_json("k", &LuaValue::Other), err(LuaError::Unsupported, "k"));
}

#[test]
fn tables_to_json() {
    let arr = LuaValue::Table(vec![(LuaValue::Integer(1), s("a")), (LuaValue::Integer(2), LuaValue::Integer(3))]);
    assert_eq!(
        lua_value_to_json("k", &arr),
        Ok(JsonValue::Array(vec![
            JsonValue::Str("a".to_string()),
            JsonValue::Number(JsonNumber::PosInt(3))
        ]))
    );
    let obj = LuaValue::Table(vec![(s("name"), s("cat")), (s("age"), LuaValue::Integer(2))]);
    assert_eq!(
        lua_value_to_json("k", &obj),
        Ok(JsonValue::Object(vec![
            ("name".to_string(), JsonValue::Str("cat".to_string())),
            ("age".to_string(), JsonValue::Number(JsonNumber::PosInt(2)))
        ]))
    );
    assert_eq!(lua_value_to_json("k", &LuaValue::Table(vec![])), Ok(JsonValue::Object(vec![])));
}

#[test]
fn table_errors_name_the_key() {
    let gap = LuaValue::Table(vec![(LuaValue::Integer(2), s("a"))]);
    assert_eq!(lua_value_to_json("list", &gap), err(LuaError::BadIndex, "list"));
    let mixed = LuaValue::Table(vec![(LuaValue::Integer(1), s("a")), (s("b"), s("c"))]);
    assert_eq!(lua_value_to_json("m", &mixed), err(LuaError::Mixed, "m"));
    let bool_key = LuaValue::Table(vec![(LuaValue::Boolean(true), s("a"))]);
    assert_eq!(lua_value_to_json("t", &bool_key), err(LuaError::BadKeyType, "t"));
    let bad_name = LuaValue::Table(vec![(LuaValue::Str(vec![0xff]), s("a"))]);
    assert_eq!(
        lua_value_to_json("t", &bad_name),
        Err(ConvertError {
            kind: LuaError::KeyNotText,
            key: "t".to_string(),
            detail: "invalid utf-8 sequence of 1 bytes from index 0".to_string()
        })
    );
    let inner = LuaValue::Table(vec![(LuaValue::Integer(1), LuaValue::Other)]);
    assert_eq!(lua_value_to_json("outer", &inner), err(LuaError::Unsupported, "1"));
    let nested = LuaValue::Table(vec![(s("cfg"), LuaValue::Table(vec![(s("depth"), LuaValue::Number(f64::INFINITY.to_bits()))]))]);
    assert_eq!(lua_value_to_json("outer", &nested), err(LuaError::NotFinite, "depth"));
}

#[test]
fn first_error_wins() {
    let t = LuaValue::Table(vec![(LuaValue::Integer(3), s("a")), (LuaValue::Integer(1), LuaValue::Other)]);
    assert_eq!(lua_value_to_json("k", &t), err(LuaError::BadIndex, "k"));
}

#[test]
fn lua_value_survives_a_round_trip() {
    let v = LuaValue::Table(vec![
        (s("name"), s("cat")),
        (s("tags"), LuaValue::Table(vec![(LuaValue::Integer(1), LuaValue::Integer(-4)), (LuaValue::Integer(2), LuaValue::Boolean(true))])),
        (s("ratio"), LuaValue::Number(0.25f64.to_bits())),
        (s("none"), s("null")),
    ]);
    let j = lua_value_to_json("k", &v).unwrap();
    assert_eq!(json_to_lua_value(&j), v);
}

#[test]
fn decimal_string_writes_digits() {
    assert_eq!(decimal_string(0), "0");
    assert_eq!(decimal_string(7), "7");
    assert_eq!(decimal_string(10), "10");
    assert_eq!(decimal_string(1234567890), "1234567890");
    assert_eq!(decimal_string(u64::MAX), "18446744073709551615");
}

#[test]
fn chars_equal_compares() {
    assert!(chars_equal(&['a', 'b'], &['a', 'b']));
    assert!(!chars_equal(&['a', 'b'], &['a']));
    assert!(!chars_equal(&['a', 'b'], &['a', 'c']));
    assert!(chars_equal(&[], &[]));
}

fn message(kind: LuaError, key: &str) -> String {
    ConvertError { kind, key: key.to_string(), detail: "why".to_string() }.message()
}

#[test]
fn conversion_messages() {
    assert_eq!(message(LuaError::NotText, "a"), "Cannot convert Define to string! key: a");
    assert_eq!(message(LuaError::NotFinite, "a"), "Cannot convert Define to f64! key: a");
    assert_eq!(message(LuaError::Unsupported, "a"), "Cannot convert Define to a valid value! key: a");
    assert_eq!(message(LuaError::BadIndex, "a"), "not valid num key! key: a");
    assert_eq!(message(LuaError::BadKeyType, "a"), "not valid num type! key: a");
    assert_eq!(message(LuaError::KeyNotText, "a"), "why");
    assert_eq!(message(LuaError::Mixed, "a"), "object and array is mixed! key: a");
}

#[test]
fn json_survives_a_round_trip_through_lua() {
    let j = JsonValue::Object(vec![
        ("title".to_string(), JsonValue::Str("猫".to_string())),
        ("none".to_string(), JsonValue::Null),
        (
            "list".to_string(),
            JsonValue::Array(vec![
                JsonValue::Number(JsonNumber::NegInt(-2)),
                JsonValue::Number(JsonNumber::PosInt(9)),
                JsonValue::Number(JsonNumber::Float(0.5f64.to_bits())),
                JsonValue::Bool(true),
            ]),
        ),
        ("empty".to_string(), JsonValue::Object(vec![])),
    ]);
    assert_eq!(lua_value_to_json("k", &json_to_lua_value(&j)), Ok(j));
}

#[test]
fn json_outside_the_round_trip_class_changes() {
    let empty = JsonValue::Array(vec![]);
    assert_eq!(lua_value_to_json("k", &json_to_lua_value(&empty)), Ok(JsonValue::Object(vec![])));
    let nil = JsonValue::Str("nil".to_string());
    assert_eq!(lua_value_to_json("k", &json_to_lua_value(&nil)), Ok(JsonValue::Null));
}
