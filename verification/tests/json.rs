use synclyr2metadata::json::{object_map, parse, Json};

fn flaw(input: &str) -> String {
    match parse(input) {
        Ok(_) => panic!("an error was expected"),
        Err(e) => e.shown(),
    }
}

fn text(input: &str) -> String {
    parse(input).unwrap().as_str().unwrap().to_string()
}

#[test]
fn plain_values() {
    assert!(parse(" null ").unwrap().is_null());
    assert_eq!(parse("true").unwrap().as_bool(), Some(true));
    assert_eq!(parse("\tfalse\r\n").unwrap().as_bool(), Some(false));
    assert_eq!(parse("-12.5e+3").unwrap().number_text(), Some("-12.5e+3"));
    assert_eq!(parse("\"x\"").unwrap().as_str(), Some("x"));
    assert_eq!(parse("[]").unwrap().as_array().unwrap().len(), 0);
}

#[test]
fn accessors_fit_their_kind_only() {
    let v = parse("1").unwrap();
    assert!(v.as_str().is_none() && v.as_bool().is_none() && v.as_array().is_none());
    assert!(v.get("a").is_none() && !v.is_null());
    assert!(parse("\"1\"").unwrap().number_text().is_none());
}

#[test]
fn objects_keep_their_order() {
    let v = parse("{\"b\": 1, \"a\": [true, {\"c\": null}], \"b\": 2}").unwrap();
    match &v {
        Json::Object(list) => {
            let keys: Vec<&str> = list.iter().map(|(k, _)| k.as_str()).collect();
            assert_eq!(keys, vec!["b", "a", "b"]);
        }
        _ => panic!("an object was expected"),
    }
    assert_eq!(v.get("b").unwrap().number_text(), Some("1"));
    assert_eq!(v.get("a").unwrap().as_array().unwrap()[0].as_bool(), Some(true));
    assert!(v.get("c").is_none());
}

#[test]
fn map_of_an_object_has_each_key_once() {
    let v = parse("{\"b\": 1, \"a\": 3, \"b\": 2}").unwrap();
    let map = object_map(&v).unwrap();
    assert_eq!(map.len(), 2);
    for (key, value) in &map {
        let expected = if *key == "b" { "2" } else { "3" };
        assert_eq!(value.number_text(), Some(expected));
    }
    assert!(object_map(&parse("[1]").unwrap()).is_none());
}

#[test]
fn values_are_cloned() {
    let v = parse("[null, true, 1.5, \"x\", {\"a\": [2], \"a\": \"y\"}]").unwrap();
    let copy = v.clone();
    drop(v);
    let items = copy.as_array().unwrap();
    assert_eq!(items.len(), 5);
    assert!(items[0].is_null());
    assert_eq!(items[1].as_bool(), Some(true));
    assert_eq!(items[2].number_text(), Some("1.5"));
    assert_eq!(items[3].as_str(), Some("x"));
    assert_eq!(items[4].get("a").unwrap().as_array().unwrap()[0].number_text(), Some("2"));
    assert_eq!(parse("x").err().unwrap().clone().shown(), "json error at byte 0: expected JSON value");
}

#[test]
fn escapes() {
    assert_eq!(text("\"\\\"\\\\\\/\\b\\f\\n\\r\\t\""), "\"\\/\u{8}\u{c}\n\r\t");
    assert_eq!(text("\"\\u00e9\\u20AC\""), "\u{e9}\u{20ac}");
    assert_eq!(text("\"\\ud83d\\ude00\""), "\u{1f600}");
    assert_eq!(text("\"\u{e9}\u{1f600}\""), "\u{e9}\u{1f600}");
}

#[test]
fn lone_surrogates_take_nothing_with_them() {
    assert_eq!(text("\"\\ud800\\n\""), "\u{fffd}\n");
    assert_eq!(text("\"\\ud800x\""), "\u{fffd}x");
    assert_eq!(text("\"\\ud800\""), "\u{fffd}");
    assert_eq!(text("\"\\ud800\\u0041\""), "\u{fffd}A");
    assert_eq!(text("\"\\ud800\\ud83d\\ude00\""), "\u{fffd}\u{1f600}");
    assert_eq!(text("\"\\udc00\\t\""), "\u{fffd}\t");
    assert!(flaw("\"\\ud800\\x\"").ends_with("invalid escape character"));
    assert!(flaw("\"\\ud800\\uzz\"").ends_with("invalid hex digit in \\u escape"));
}

#[test]
fn plain_texts_are_read_back() {
    for s in ["", "abc", "a b \u{e9}\u{4e2d}"] {
        let quoted = format!("\"{}\"", s);
        assert_eq!(text(&quoted), s);
    }
}

#[test]
fn flaws_tell_their_place() {
    assert_eq!(flaw(""), "json error at byte 0: expected JSON value");
    assert_eq!(flaw("[1 2]"), "json error at byte 3: expected ',' or ']' in array");
    assert_eq!(flaw("{1:2}"), "json error at byte 1: expected string key in object");
    assert_eq!(flaw("{\"a\" 2}"), "json error at byte 5: expected ':' after object key");
    assert_eq!(flaw("{\"a\":2 3}"), "json error at byte 7: expected ',' or '}' in object");
    assert_eq!(flaw("tru"), "json error at byte 0: invalid literal");
    assert_eq!(flaw("nul"), "json error at byte 0: invalid literal");
    assert_eq!(flaw("1 x"), "json error at byte 2: trailing data after JSON value");
}

#[test]
fn flaws_in_texts() {
    assert!(flaw("\"abc").ends_with("unterminated string"));
    assert!(flaw("\"abc\\").ends_with("unterminated escape"));
    assert!(flaw("\"\\x\"").ends_with("invalid escape character"));
    assert!(flaw("\"\\u12").ends_with("incomplete \\u escape"));
    assert!(flaw("\"\\u12g4\"").ends_with("invalid hex digit in \\u escape"));
}

#[test]
fn flaws_in_numbers() {
    assert!(flaw("-").ends_with("invalid number"));
    assert!(flaw("1.2.3").ends_with("trailing data after JSON value"));
}
