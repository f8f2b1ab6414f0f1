use si::defs::Defs;
use si::engine::interpolate;
use si::jsondefs::from_json;
use si::textdefs::from_text;

#[test]
fn lookup_is_case_insensitive_and_last_write_wins() {
    let mut d = Defs::new();
    d.insert("A", String::from("1"));
    d.insert("a", String::from("2"));
    assert_eq!(d.lookup("A").unwrap(), "2");
    assert_eq!(d.lookup("a").unwrap(), "2");
    assert!(d.lookup("b").is_none());
}

#[test]
fn from_pairs_inserts_in_order() {
    let pairs = vec![
        (String::from("City"), String::from("boston")),
        (String::from("os"), String::from("linux")),
        (String::from("CITY"), String::from("newyork")),
    ];
    let d = Defs::from_pairs(pairs);
    assert_eq!(d.lookup("city").unwrap(), "newyork");
    assert_eq!(d.lookup("OS").unwrap(), "linux");
}

#[test]
fn text_basic_lines() {
    let d = from_text("city=newyork\nos=linux");
    assert_eq!(d.lookup("city").unwrap(), "newyork");
    assert_eq!(d.lookup("os").unwrap(), "linux");
}

#[test]
fn text_double_equals_escapes_to_single() {
    let d = from_text("equation=y == mx + b");
    assert_eq!(d.lookup("equation").unwrap(), "y = mx + b");
}

#[test]
fn text_escape_in_key() {
    let d = from_text("a==b=c");
    assert_eq!(d.lookup("a=b").unwrap(), "c");
}

#[test]
fn text_invalid_lines_are_skipped() {
    let d = from_text("\nno separator\n==\na=b=c\nok=fine\n");
    assert!(d.lookup("no separator").is_none());
    assert!(d.lookup("a").is_none());
    assert_eq!(d.lookup("ok").unwrap(), "fine");
}

#[test]
fn text_later_line_overwrites_earlier() {
    let d = from_text("k=1\nK=2");
    assert_eq!(d.lookup("k").unwrap(), "2");
}

#[test]
fn text_empty_value() {
    let d = from_text("empty=");
    assert_eq!(d.lookup("empty").unwrap(), "");
}

#[test]
fn json_flat_object() {
    let d = from_json("{\"city\": \"newyork\", \"os\": \"linux\"}").unwrap();
    assert_eq!(d.lookup("city").unwrap(), "newyork");
    assert_eq!(d.lookup("os").unwrap(), "linux");
}

#[test]
fn json_nested_object_flattens_to_dotted_path() {
    let d = from_json("{\"ocean\":{\"creature\":\"whale\"}}").unwrap();
    assert_eq!(d.lookup("ocean.creature").unwrap(), "whale");
    let (r, _) = interpolate("${ocean.creature}", &d, true);
    assert_eq!(r.unwrap(), "whale");
}

#[test]
fn json_deep_nesting_and_whitespace() {
    let d = from_json(" {\n  \"a\" : { \"b\" : { \"c\" : \"deep\" } },\n  \"top\" : \"t\"\n } ")
        .unwrap();
    assert_eq!(d.lookup("a.b.c").unwrap(), "deep");
    assert_eq!(d.lookup("top").unwrap(), "t");
}

#[test]
fn json_string_escapes() {
    let d = from_json("{\"k\":\"a\\n\\t\\\"b\\\\c\\/d\"}").unwrap();
    assert_eq!(d.lookup("k").unwrap(), "a\n\t\"b\\c/d");
}

#[test]
fn json_empty_object() {
    let d = from_json("{}").unwrap();
    assert!(d.lookup("anything").is_none());
}

#[test]
fn json_keys_fold_case() {
    let d = from_json("{\"Ocean\":{\"Creature\":\"whale\"}}").unwrap();
    assert_eq!(d.lookup("OCEAN.CREATURE").unwrap(), "whale");
}

#[test]
fn json_rejects_malformed_document() {
    assert!(from_json("").is_none());
    assert!(from_json("{").is_none());
    assert!(from_json("{\"a\":\"b\"").is_none());
    assert!(from_json("{\"a\" \"b\"}").is_none());
    assert!(from_json("not json").is_none());
    assert!(from_json("{\"a\":\"b\"} trailing").is_none());
}

#[test]
fn json_rejects_non_string_leaves() {
    assert!(from_json("{\"n\": 3}").is_none());
    assert!(from_json("{\"b\": true}").is_none());
    assert!(from_json("{\"x\": null}").is_none());
    assert!(from_json("{\"arr\": [\"a\"]}").is_none());
}

#[test]
fn json_rejects_unicode_escape() {
    assert!(from_json("{\"k\":\"\\u0041\"}").is_none());
}

#[test]
fn text_file_definitions_feed_interpolation() {
    let d = from_text("city=newyork\nos=linux\nequation=y == mx + b");
    let (r, _) = interpolate("${Equation} in ${CITY} on ${os}", &d, true);
    assert_eq!(r.unwrap(), "y = mx + b in newyork on linux");
}
