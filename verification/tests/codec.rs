use bourne::error::ParseError;
use bourne::format::{escape_string, measure_escaped_string, Indent};
use bourne::parse::unescape_string;
use bourne::{ArrayExt, Number, ObjectExt, Value, ValueMap};

/// The integer fast path and the float path of the number parser, and the
/// compact rendering of both.
#[test]
fn parse_number_test() -> Result<(), ParseError> {
    let object = Value::from_str(
        r#"
            {
                "int": 9223372036854775807,
                "float": 3.14159265358979
            }
        "#,
    )?;
    assert!(matches!(object.get("int"), Some(Value::Number(Number::Int(i64::MAX)))));
    let expected_bits = 3.14159265358979f64.to_bits();
    assert!(
        matches!(object.get("float"), Some(Value::Number(Number::Float(bits))) if *bits == expected_bits)
    );
    let json_text = object.to_string();
    assert_eq!(json_text, r#"{"int":9223372036854775807,"float":3.14159265358979}"#);
    Ok(())
}

/// NaN and the infinities are representable and render without panicking;
/// their text (`NaN`, `+Inf`, `-Inf`) is not strict JSON and does not parse
/// back, which is the documented policy.
#[test]
fn float_nan_infinity_test() {
    let mut value = Value::Null;
    value.insert("nan", Value::Number(Number::Float(f64::NAN.to_bits())));
    value.insert("infinity", Value::Number(Number::Float(f64::INFINITY.to_bits())));
    value.insert(
        "min_positive",
        Value::Number(Number::Float(f64::MIN_POSITIVE.to_bits())),
    );
    value.insert("min", Value::Number(Number::Float(f64::MIN.to_bits())));
    value.insert("max", Value::Number(Number::Float(f64::MAX.to_bits())));
    println!("{}", value.to_string());
}

/// Round-trip: a tree with every variant, rendered compactly, parses back
/// as the same tree (checked by rendering both sides).
#[test]
fn round_trip_compact() {
    let mut inner = Value::Null;
    inner.push(Value::Number(Number::Int(-42)));
    inner.push(Value::Boolean(true));
    inner.push(Value::Null);
    inner.push(Value::String(String::from("line\nbreak \"quoted\" \\slash \u{1} plain")));
    let mut object = Value::Null;
    object.insert("items", inner);
    object.insert("empty", Value::Array(Vec::new()));
    object.insert("nothing", Value::Object(ValueMap::new()));
    object.insert("big", Value::Number(Number::Int(i64::MIN)));
    let text = object.to_string();
    let reparsed = Value::from_str(&text).unwrap();
    assert_eq!(reparsed.to_string(), text);
}

/// Round-trip with finite floats: bit-exact through the double writer and
/// reader. (A float with an integral value renders without a dot or
/// exponent and so reads back through the integer fast path; that is the
/// price of the fast path and holds of whole-valued floats only.)
#[test]
fn round_trip_floats() {
    for f in [0.5f64, 3.14159265358979, 1.0e300, -2.5e-10, -1.25] {
        let value = Value::Number(Number::Float(f.to_bits()));
        let text = value.to_string();
        let reparsed = Value::from_str(&text).unwrap();
        assert!(
            matches!(reparsed, Value::Number(Number::Float(bits)) if bits == f.to_bits()),
            "round trip failed for {f}: rendered {text}"
        );
    }
}

/// Unescape undoes escape, for every control character and the quote and
/// backslash, and for the empty string.
#[test]
fn unescape_escape_identity() {
    let mut tricky = String::new();
    for code in 0u32..0x20 {
        tricky.push(char::from_u32(code).unwrap());
    }
    tricky.push('"');
    tricky.push('\\');
    tricky.push_str("plain text / déjà \u{1F600}");
    for s in ["", "hello", "\"", "\\", tricky.as_str()] {
        let escaped = escape_string(s);
        let back = unescape_string(&escaped).unwrap();
        assert_eq!(back, s);
    }
}

/// The escape table itself: mnemonics for the named controls, uppercase
/// `\u00XX` for the rest, pass-through for everything else.
#[test]
fn escape_exact_text() {
    assert_eq!(escape_string("a\"b\\c\nd\re\tf"), "a\\\"b\\\\c\\nd\\re\\tf");
    assert_eq!(escape_string("\u{c}\u{8}"), "\\f\\b");
    assert_eq!(escape_string("\u{0}\u{1}\u{1f}"), "\\u0000\\u0001\\u001F");
    assert_eq!(escape_string("déjà"), "déjà");
}

/// The measured length is the byte length of the escaped text.
#[test]
fn measure_matches_escape() {
    for s in ["", "plain", "a\"b\\c\nd", "\u{0}\u{1f}", "déjà \u{1F600}"] {
        assert_eq!(measure_escaped_string(s), escape_string(s).len());
    }
}

/// Lenient unescaping: a backslash before any other character yields that
/// character.
#[test]
fn unescape_lenient() {
    assert_eq!(unescape_string("\\q\\/\\'").unwrap(), "q/'");
    assert_eq!(unescape_string("\\u0041").unwrap(), "A");
}

/// Whitespace between tokens never changes the parsed tree.
#[test]
fn whitespace_insensitivity() {
    let tight = Value::from_str("{\"a\":1}").unwrap().to_string();
    for text in [
        " {\"a\":1} ",
        "\t{\n\"a\"\r:\t1\n} ",
        "{ \"a\" : 1 }",
        "\n\n{\"a\"\n:\n1\n}\n",
    ] {
        assert_eq!(Value::from_str(text).unwrap().to_string(), tight);
    }
}

/// Duplicate keys: the last write wins and the entry keeps its first
/// position; the object holds exactly one entry for the key.
#[test]
fn duplicate_keys_last_write_wins() {
    let object = Value::from_str("{\"a\":1,\"b\":2,\"a\":3}").unwrap();
    assert_eq!(object.len(), 2);
    assert!(matches!(object.get("a"), Some(Value::Number(Number::Int(3)))));
    assert_eq!(object.to_string(), "{\"a\":3,\"b\":2}");
}

/// Trailing commas before a closing bracket or brace are accepted, in
/// arrays and objects alike (the documented policy).
#[test]
fn trailing_commas() {
    let array = Value::from_str("[1,2,]").unwrap();
    assert_eq!(array.to_string(), "[1,2]");
    let object = Value::from_str("{\"a\":1,}").unwrap();
    assert_eq!(object.to_string(), "{\"a\":1}");
}

/// An unterminated string fails with the offset of its first content
/// character.
#[test]
fn unterminated_string() {
    assert!(matches!(
        Value::from_str("\"abc"),
        Err(ParseError::UnexpectedEOFWhileParsingString(1))
    ));
}

/// Error offsets count bytes of the UTF-8 source, not characters: after a
/// two-byte character the reported offsets move by two.
#[test]
fn error_offsets_are_byte_offsets() {
    assert!(matches!(
        Value::from_str("\"\u{e9}\nx\""),
        Err(ParseError::LineBreakWhileParsingString(3))
    ));
    assert!(matches!(
        Value::from_str("[\"\u{e9}\", x]"),
        Err(ParseError::InvalidCharacter(7))
    ));
}

/// The exact value of a signed scientific literal.
#[test]
fn exact_literal() {
    let object = Value::from_str("{\"n\":-3.5e2}").unwrap();
    let expected_bits = (-350.0f64).to_bits();
    assert!(
        matches!(object.get("n"), Some(Value::Number(Number::Float(bits))) if *bits == expected_bits)
    );
}

/// Pretty printing with the two-space default policy: multi-line, indented,
/// and the structure parses back as the same tree.
#[test]
fn compact_vs_pretty() {
    let value = Value::from_str("{\"a\":[1,2]}").unwrap();
    let pretty = value.pretty_print().to_string();
    assert_eq!(pretty, "{\n  \"a\" : [\n    1,\n    2\n  ]\n}");
    let reparsed = Value::from_str(&pretty).unwrap();
    assert_eq!(reparsed.to_string(), value.to_string());
}

/// The explicit pretty-print policy: tabs, no spacing around colons.
#[test]
fn pretty_print_format_tabs() {
    let value = Value::from_str("{\"a\":[1]}").unwrap();
    let pretty = value.pretty_print_format(Indent::Tabs(1), false).to_string();
    assert_eq!(pretty, "{\n\t\"a\":[\n\t\t1\n\t]\n}");
}

/// One input for every parse error variant.
#[test]
fn error_variants() {
    assert!(matches!(Value::from_str("abc"), Err(ParseError::InvalidCharacter(0))));
    assert!(matches!(Value::from_str("\u{c}1"), Err(ParseError::InvalidCharacter(0))));
    assert!(matches!(Value::from_str(""), Err(ParseError::UnexpectedEOF)));
    assert!(matches!(Value::from_str("[1 2]"), Err(ParseError::InvalidCharacter(3))));
    assert!(matches!(
        Value::from_str("\"a\nb\""),
        Err(ParseError::LineBreakWhileParsingString(2))
    ));
    assert!(matches!(Value::from_str("\"\\uZZ00\""), Err(ParseError::InvalidHex)));
    assert!(matches!(
        Value::from_str("\"\\uD800\""),
        Err(ParseError::InvalidEscapeSequence)
    ));
    assert!(matches!(Value::from_str("\"\\"), Err(ParseError::UnexpectedEOF)));
    assert!(matches!(
        Value::from_str("99999999999999999999"),
        Err(ParseError::ParseIntError)
    ));
    assert!(matches!(Value::from_str("[1,2] x"), Err(ParseError::InvalidCharacter(6))));
    assert!(matches!(Value::from_str("-"), Err(ParseError::InvalidCharacter(1))));
}

/// The double reader treats a missing exponent as zero (lenient, like the
/// binutils reader it mirrors), so `1e` names `1.0`.
#[test]
fn empty_exponent_is_zero() {
    let expected_bits = 1.0f64.to_bits();
    assert!(
        matches!(Value::from_str("1e"), Ok(Value::Number(Number::Float(bits))) if bits == expected_bits)
    );
}

/// Exact literal parsing of the keywords, and nothing looser.
#[test]
fn keywords_exact() {
    assert!(matches!(Value::from_str("null"), Ok(Value::Null)));
    assert!(matches!(Value::from_str("true"), Ok(Value::Boolean(true))));
    assert!(matches!(Value::from_str("false"), Ok(Value::Boolean(false))));
    assert!(matches!(Value::from_str("True"), Err(ParseError::InvalidCharacter(0))));
    assert!(matches!(Value::from_str("nul"), Err(ParseError::InvalidCharacter(0))));
}

/// Reading through `get`, by array position and by object key; a miss gives
/// `None`.
#[test]
fn get_by_index_and_key() {
    let value = Value::from_str("{\"list\":[10,20],\"name\":\"x\"}").unwrap();
    let list = value.get("list").unwrap();
    assert!(matches!(list.get(0usize), Some(Value::Number(Number::Int(10)))));
    assert!(matches!(list.get(1usize), Some(Value::Number(Number::Int(20)))));
    assert!(list.get(2usize).is_none());
    assert!(value.get("missing").is_none());
    assert!(value.get(String::from("name")).is_some());
    assert!(list.get("name").is_none());
}

/// `len` counts bytes for strings (the `String::len` count), elements for
/// arrays, entries for objects, and is zero elsewhere.
#[test]
fn len_per_variant() {
    assert_eq!(Value::String(String::from("héllo")).len(), 6);
    assert_eq!(Value::from_str("[1,2,3]").unwrap().len(), 3);
    assert_eq!(Value::from_str("{\"a\":1}").unwrap().len(), 1);
    assert_eq!(Value::Null.len(), 0);
    assert_eq!(Value::Boolean(true).len(), 0);
    assert_eq!(Value::Number(Number::Int(7)).len(), 0);
}

/// `push` on `Null` turns it into an array first; `insert` on `Null` turns
/// it into an object first, and returns the replaced value on overwrite.
#[test]
fn auto_vivify_and_replace() {
    let mut arr = Value::Null;
    arr.push(Value::Number(Number::Int(1)));
    arr.push(Value::Boolean(false));
    assert_eq!(arr.to_string(), "[1,false]");
    let mut obj = Value::Null;
    assert!(obj.insert("k", Value::Number(Number::Int(1))).is_none());
    let prev = obj.insert("k", Value::Number(Number::Int(2)));
    assert!(matches!(prev, Some(Value::Number(Number::Int(1)))));
    assert_eq!(obj.to_string(), "{\"k\":2}");
}

/// The default indentation unit is four spaces.
#[test]
fn default_indent() {
    assert_eq!(Indent::default(), Indent::Spaces(4));
}

/// The mapping itself: insertion order, replacement in place, lookup.
#[test]
fn value_map_api() {
    let mut map = ValueMap::new();
    assert_eq!(map.len(), 0);
    assert!(map.insert(String::from("b"), Value::Number(Number::Int(1))).is_none());
    assert!(map.insert(String::from("a"), Value::Number(Number::Int(2))).is_none());
    let prev = map.insert(String::from("b"), Value::Number(Number::Int(3)));
    assert!(matches!(prev, Some(Value::Number(Number::Int(1)))));
    assert_eq!(map.len(), 2);
    assert_eq!(map.key_at(0), "b");
    assert_eq!(map.key_at(1), "a");
    assert!(matches!(map.value_at(0), Value::Number(Number::Int(3))));
    assert!(matches!(map.get("a"), Some(Value::Number(Number::Int(2)))));
    assert!(map.get("c").is_none());
    assert_eq!(Value::Object(map).to_string(), "{\"b\":3,\"a\":2}");
}

/// The `From` constructors build the variant they name.
#[test]
fn from_constructors() {
    assert!(matches!(Value::from(true), Value::Boolean(true)));
    assert!(matches!(Value::from(7i64), Value::Number(Number::Int(7))));
    assert!(matches!(Value::from(Number::Int(8)), Value::Number(Number::Int(8))));
    assert!(matches!(Value::from(String::from("s")), Value::String(_)));
    assert!(matches!(Value::from("t"), Value::String(_)));
    assert!(matches!(Value::from(Vec::new()), Value::Array(_)));
    assert!(matches!(Value::from(ValueMap::new()), Value::Object(_)));
}

/// Cloning is a deep copy: the copy renders identically and changing the
/// copy leaves the original alone.
#[test]
fn clone_is_deep() {
    let mut original = Value::from_str("{\"a\":[1,{\"b\":\"x\"}]}").unwrap();
    let copy = original.clone();
    assert_eq!(copy.to_string(), original.to_string());
    original.insert("c", Value::Null);
    assert_eq!(copy.to_string(), "{\"a\":[1,{\"b\":\"x\"}]}");
    assert_eq!(original.to_string(), "{\"a\":[1,{\"b\":\"x\"}],\"c\":null}");
}

/// The extension traits mirror `push` and `insert` on the raw containers.
#[test]
fn array_and_object_ext() {
    let mut elems: Vec<Value> = Vec::new();
    elems.push_value(Value::Null);
    elems.push_value(Value::Boolean(true));
    assert_eq!(Value::Array(elems).to_string(), "[null,true]");
    let mut map = ValueMap::new();
    map.insert_value(String::from("k"), Value::Number(Number::Int(5)));
    assert_eq!(Value::Object(map).to_string(), "{\"k\":5}");
}
