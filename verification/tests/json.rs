use neutral_grid::json::{find_with, list, parse_or_empty, Fields, Json};
use neutral_grid::rest::{join, join_spaced, refuse, show_field, Method};

#[test]
fn documents_are_read() {
    let doc = parse_or_empty(r#"{"a":"x","b":[1,2.5,true,null],"c":{"d":"7.25"},"e":-4}"#);
    assert_eq!(doc.text_at("a"), Some("x"));
    assert_eq!(doc.text_at("b"), None);
    assert_eq!(doc.text_or_empty("zz"), "");
    assert!(doc.has_text("a", "x"));
    assert!(!doc.has_text("a", "y"));
    let items = doc.items_at("b").unwrap();
    assert_eq!(items.len(), 4);
    assert_eq!(items[0].as_i64(), Some(1));
    assert_eq!(items[1].as_i64(), None);
    assert_eq!(items[1].as_amount(), Some(25_000_000_000));
    assert!(matches!(items[2], Json::Bool(true)));
    assert!(matches!(items[3], Json::Null));
    assert_eq!(doc.get("c").unwrap().amount_at("d"), 72_500_000_000);
    assert_eq!(doc.get("e").unwrap().as_i64(), Some(-4));
    assert_eq!(doc.amount_at("a"), 0);
    assert_eq!(doc.amount_at("e"), 0);
}

#[test]
fn what_is_no_document_counts_as_empty() {
    for text in ["", "pong", "{", "[1,", "{\"a\":}"] {
        match parse_or_empty(text) {
            Json::Record(fields) => assert!(fields.is_empty()),
            other => panic!("{:?}", other),
        }
    }
}

#[test]
fn fields_of_other_documents_are_missing() {
    let doc = parse_or_empty("[{\"a\":\"x\"}]");
    assert!(doc.get("a").is_none());
    assert_eq!(doc.as_array().unwrap()[0].text_at("a"), Some("x"));
    assert_eq!(parse_or_empty("\"a\"").as_str(), Some("a"));
}

#[test]
fn the_first_item_with_a_text_is_found() {
    let doc = parse_or_empty(r#"[{"k":"a","n":1},{"k":"b","n":2},{"k":"b","n":3}]"#);
    let items = doc.as_array().unwrap();
    let found = find_with(items, "k", "b").unwrap();
    assert_eq!(found.get("n").unwrap().as_i64(), Some(2));
    assert!(find_with(items, "k", "c").is_none());
}

#[test]
fn errors_are_written_as_they_stand() {
    let doc = parse_or_empty(r#"{"code":"51008","msg":"Insufficient \"margin\"","n":-2.50}"#);
    assert_eq!(refuse(&doc).message, r#""51008" "Insufficient \"margin\"""#);
    assert_eq!(refuse(&parse_or_empty("{}")).message, "null null");
    assert_eq!(show_field(&doc, "n"), "-2.5");
}

#[test]
fn numbers_in_errors_are_written_as_they_were_read() {
    let mut x: u64 = 1;
    for _ in 0..2000 {
        x = x.wrapping_mul(6_364_136_223_846_793_005).wrapping_add(1_442_695_040_888_963_407);
        let text = format!("{{\"code\":0.{:020},\"msg\":{}e-{}}}", x, x >> 11, 20 + x % 90);
        let value: serde_json::Value = serde_json::from_str(&text).unwrap();
        let expected = format!("{} {}", value["code"], value["msg"]);
        assert_eq!(refuse(&parse_or_empty(&text)).message, expected);
    }
}

#[test]
fn documents_are_built_and_written() {
    let inner = Fields::new().text("x", "1").record();
    let doc = Fields::new().value("b", list(vec![inner, Json::Null, Json::Bool(false)])).record();
    let outer = Fields::new().value("a", doc).record();
    assert_eq!(show_field(&outer, "a"), r#"{"b":[{"x":"1"},null,false]}"#);
}

#[test]
fn texts_are_joined() {
    assert_eq!(join("a", "b"), "ab");
    assert_eq!(join_spaced("500 Internal Server Error", "oops"), "500 Internal Server Error oops");
    assert_eq!(Method::Get.as_str(), "GET");
    assert_eq!(Method::Post.as_str(), "POST");
}
