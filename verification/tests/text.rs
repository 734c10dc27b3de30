use web_server::http::route_path::{has_wildcard_last, pattern, segment, segments, PathSegment};
use web_server::http::string_map::StringMap;
use web_server::http::text::{parse_unsigned, same_text, split, strip_crlf, trim};

fn strings(parts: &[&str]) -> Vec<String> {
    parts.iter().map(|part| String::from(*part)).collect()
}

#[test]
fn split_keeps_empty_pieces() {
    assert_eq!(split("a/b/c", '/'), strings(&["a", "b", "c"]));
    assert_eq!(split("", '/'), strings(&[""]));
    assert_eq!(split("/", '/'), strings(&["", ""]));
    assert_eq!(split("a//b/", '/'), strings(&["a", "", "b", ""]));
    assert_eq!(split("no separator", '/'), strings(&["no separator"]));
}

#[test]
fn split_counts_characters_not_bytes() {
    assert_eq!(split("Olá/Malin", '/'), strings(&["Olá", "Malin"]));
}

#[test]
fn split_pieces_join_to_the_text() {
    let text = "GET /a/b HTTP/1.1";
    let pieces = split(text, ' ');
    assert_eq!(pieces.join(" "), text);
    assert!(pieces.iter().all(|piece| !piece.contains(' ')));
}

#[test]
fn same_text_compares_contents() {
    assert!(same_text("Content-Length", "Content-Length"));
    assert!(!same_text("Content-Length", "Content-Type"));
    assert!(!same_text("a", "ab"));
    assert!(same_text("", ""));
}

#[test]
fn trim_drops_the_last_two_characters() {
    assert_eq!(trim("value\r\n"), "value");
    assert_eq!(trim("\r\n"), "");
}

#[test]
fn strip_crlf_wants_the_line_end() {
    assert_eq!(strip_crlf("Host: here\r\n"), Some(String::from("Host: here")));
    assert_eq!(strip_crlf("\r\n"), Some(String::new()));
    assert_eq!(strip_crlf("Host: here\n"), None);
    assert_eq!(strip_crlf(""), None);
}

#[test]
fn parse_unsigned_reads_decimal_numbers() {
    assert_eq!(parse_unsigned("0"), Some(0));
    assert_eq!(parse_unsigned("42"), Some(42));
    assert_eq!(parse_unsigned("+42"), Some(42));
    assert_eq!(parse_unsigned("007"), Some(7));
    assert_eq!(parse_unsigned(&usize::MAX.to_string()), Some(usize::MAX));
}

#[test]
fn parse_unsigned_refuses_what_is_no_number() {
    assert_eq!(parse_unsigned(""), None);
    assert_eq!(parse_unsigned("+"), None);
    assert_eq!(parse_unsigned("-1"), None);
    assert_eq!(parse_unsigned("12a"), None);
    assert_eq!(parse_unsigned(" 12"), None);
    assert_eq!(parse_unsigned("99999999999999999999999999"), None);
}

#[test]
fn segments_drop_one_leading_slash() {
    assert_eq!(segments("/hello/world"), strings(&["hello", "world"]));
    assert_eq!(segments("hello/world"), strings(&["hello", "world"]));
    assert_eq!(segments("/"), Vec::<String>::new());
    assert_eq!(segments(""), Vec::<String>::new());
    assert_eq!(segments("//"), strings(&["", ""]));
    assert_eq!(segments("/hello/"), strings(&["hello", ""]));
}

#[test]
fn segment_tells_literal_variable_and_wildcard() {
    assert!(matches!(segment("hello"), PathSegment::Literal(text) if text == "hello"));
    assert!(matches!(segment("?key"), PathSegment::Variable(name) if name == "key"));
    assert!(matches!(segment("?"), PathSegment::Variable(name) if name.is_empty()));
    assert!(matches!(segment("*"), PathSegment::Wildcard));
    assert!(matches!(segment("**"), PathSegment::Literal(text) if text == "**"));
    assert!(matches!(segment(""), PathSegment::Literal(text) if text.is_empty()));
}

#[test]
fn pattern_reads_every_segment() {
    let steps = pattern("/with_var/?key/*");
    assert_eq!(steps.len(), 3);
    assert!(matches!(&steps[0], PathSegment::Literal(text) if text == "with_var"));
    assert!(matches!(&steps[1], PathSegment::Variable(name) if name == "key"));
    assert!(matches!(&steps[2], PathSegment::Wildcard));
    assert!(has_wildcard_last(&steps));
    assert!(!has_wildcard_last(&pattern("/a/*/b")));
    assert!(has_wildcard_last(&pattern("/a/b")));
    assert!(has_wildcard_last(&pattern("/")));
}

#[test]
fn string_map_last_write_wins() {
    let mut map = StringMap::new();
    assert_eq!(map.len(), 0);
    map.insert(String::from("a"), String::from("1"));
    map.insert(String::from("b"), String::from("2"));
    map.insert(String::from("a"), String::from("3"));
    assert_eq!(map.len(), 2);
    assert_eq!(map.get("a"), Some(&String::from("3")));
    assert_eq!(map.get("b"), Some(&String::from("2")));
    assert_eq!(map.get("c"), None);
    assert!(map.contains_key("a"));
    assert!(!map.contains_key("c"));
}

#[test]
fn string_map_keeps_the_order_of_first_arrival() {
    let mut map = StringMap::new();
    map.insert(String::from("first"), String::from("1"));
    map.insert(String::from("second"), String::from("2"));
    map.insert(String::from("first"), String::from("again"));
    assert_eq!(map.key_at(0), "first");
    assert_eq!(map.value_at(0), "again");
    assert_eq!(map.key_at(1), "second");
    assert_eq!(map.value_at(1), "2");
}

#[test]
fn string_map_extend_prefers_the_other_map() {
    let mut map = StringMap::new();
    map.insert(String::from("a"), String::from("1"));
    map.insert(String::from("b"), String::from("2"));
    let mut other = StringMap::new();
    other.insert(String::from("b"), String::from("20"));
    other.insert(String::from("c"), String::from("30"));
    map.extend(&other);
    assert_eq!(map.len(), 3);
    assert_eq!(map.get("a"), Some(&String::from("1")));
    assert_eq!(map.get("b"), Some(&String::from("20")));
    assert_eq!(map.get("c"), Some(&String::from("30")));
}
