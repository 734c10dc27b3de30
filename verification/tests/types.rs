use web_server::http::{
    ConfigError, HttpContentType, HttpMethod, HttpRequest, HttpResponse, HttpVersion, StatusCode,
};

#[test]
fn status_codes_have_number_and_reason() {
    assert_eq!(StatusCode::_200.to_code(), 200);
    assert_eq!(StatusCode::_200.to_string(), "OK");
    assert_eq!(StatusCode::_404.to_code(), 404);
    assert_eq!(StatusCode::_404.to_string(), "Not Found");
}

#[test]
fn version_is_written_as_on_the_wire() {
    assert_eq!(HttpVersion::_1_1.to_string(), "HTTP/1.1");
    assert_eq!(HttpVersion::from_str("HTTP/1.1"), HttpVersion::_1_1);
    assert_eq!(HttpVersion::parse("HTTP/1.1"), Some(HttpVersion::_1_1));
    assert_eq!(HttpVersion::parse("HTTP/1.0"), None);
    assert_eq!(HttpVersion::parse(""), None);
}

#[test]
fn methods_are_read_by_name() {
    assert_eq!(HttpMethod::from_method_string("GET"), HttpMethod::GET);
    assert_eq!(HttpMethod::from_method_string("POST"), HttpMethod::POST);
    assert_eq!(HttpMethod::from_method_string("PUT"), HttpMethod::PUT);
    assert_eq!(HttpMethod::from_method_string("DELETE"), HttpMethod::DELETE);
    assert_eq!(HttpMethod::from_method_string("OPTION"), HttpMethod::OPTION);
    assert_eq!(HttpMethod::parse("get"), None);
    assert_eq!(HttpMethod::parse("PATCH"), None);
    assert_eq!(HttpMethod::parse(""), None);
}

#[test]
fn methods_are_listed_in_declaration_order() {
    let all = HttpMethod::all();
    assert_eq!(
        all,
        vec![
            HttpMethod::GET,
            HttpMethod::PUT,
            HttpMethod::POST,
            HttpMethod::DELETE,
            HttpMethod::OPTION
        ]
    );
    for (place, method) in all.iter().enumerate() {
        assert_eq!(method.index(), place);
    }
}

#[test]
fn content_type_has_its_header_value() {
    assert_eq!(
        HttpContentType::TEXTPLAIN.to_string_with_encoding(),
        "text/plain; charset=utf-8"
    );
}

#[test]
fn new_response_is_200_without_content() {
    let response = HttpResponse::new();
    assert_eq!(response.status_code, StatusCode::_200);
    assert!(response.content_type.is_none());
    assert!(response.content.is_none());
    assert_eq!(response.headers.len(), 0);
    let default = HttpResponse::default();
    assert_eq!(default.status_code, StatusCode::_200);
    assert!(default.content.is_none());
    assert_eq!(default.headers.len(), 0);
}

#[test]
fn string_content_sets_type_header_and_bytes() {
    let response = HttpResponse::new().with_string_content("Olá Malin!");
    assert_eq!(response.content_type, Some(HttpContentType::TEXTPLAIN));
    assert_eq!(response.content, Some("Olá Malin!".as_bytes().to_vec()));
    assert_eq!(
        response.headers.get("Content-Type"),
        Some(&String::from("text/plain; charset=utf-8"))
    );
    assert_eq!(response.status_code, StatusCode::_200);
    assert_eq!(response.content_as_string(), "Olá Malin!");
}

#[test]
fn status_builders_change_only_the_status() {
    let response = HttpResponse::new().with_string_content("x").not_found();
    assert_eq!(response.status_code, StatusCode::_404);
    assert_eq!(response.content, Some(vec![120]));
    let response = response.ok();
    assert_eq!(response.status_code, StatusCode::_200);
    assert_eq!(response.content, Some(vec![120]));
    assert_eq!(response.headers.len(), 1);
}

#[test]
fn with_header_sets_and_replaces() {
    let response = HttpResponse::new()
        .with_header(String::from("Test"), String::from("my val"))
        .with_header(String::from("Test"), String::from("other"));
    assert_eq!(response.headers.len(), 1);
    assert_eq!(response.headers.get("Test"), Some(&String::from("other")));
}

#[test]
fn content_length_header_is_reserved() {
    let refused = HttpResponse::new()
        .try_with_header(String::from("Content-Length"), String::from("3"));
    assert_eq!(refused.err(), Some(ConfigError::ReservedHeader));
    let taken = HttpResponse::new()
        .try_with_header(String::from("Content-Type"), String::from("text/html"))
        .ok()
        .unwrap();
    assert_eq!(taken.headers.get("Content-Type"), Some(&String::from("text/html")));
}

#[test]
fn content_text_wants_valid_utf8() {
    assert_eq!(HttpResponse::new().content_text(), None);
    let invalid = HttpResponse::new().with_byte_content(vec![0xff, 0xfe], HttpContentType::TEXTPLAIN);
    assert_eq!(invalid.content_text(), None);
    let valid = HttpResponse::new().with_byte_content(vec![79, 108, 195, 161], HttpContentType::TEXTPLAIN);
    assert_eq!(valid.content_text(), Some(String::from("Olá")));
}

#[test]
fn new_request_is_empty_but_for_method_and_path() {
    let request = HttpRequest::new(HttpMethod::PUT, String::from("/a"));
    assert_eq!(request.method, HttpMethod::PUT);
    assert_eq!(request.path, "/a");
    assert_eq!(request.http_version, HttpVersion::_1_1);
    assert_eq!(request.headers.len(), 0);
    assert_eq!(request.route_params.len(), 0);
    assert!(request.content.is_none());
}
