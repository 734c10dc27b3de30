use web_server::http::file_server::FileServer;
use web_server::http::{HttpMethod, HttpRequest, StatusCode};

fn read_test_folder(name: String) -> Option<Vec<u8>> {
    if name == "static//test_content.txt" {
        Some(String::from("Test content here!\n").into_bytes())
    } else {
        None
    }
}

#[test]
fn it_serves_present_file() {
    let file_server = FileServer::new(String::from("static/content"), String::from("static/"));
    let request = HttpRequest::new(
        HttpMethod::GET,
        String::from("static/content/test_content.txt"),
    );
    let response = file_server.handle(request, &read_test_folder);

    assert_eq!(response.content_as_string(), "Test content here!\n");
}

#[test]
fn it_answers_404_for_a_missing_file() {
    let file_server = FileServer::new(String::from("/static"), String::from("public"));
    let request = HttpRequest::new(HttpMethod::GET, String::from("/static/other.txt"));
    let response = file_server.handle(request, &read_test_folder);
    assert_eq!(response.status_code, StatusCode::_404);
    assert!(response.content.is_none());
}

#[test]
fn it_answers_404_for_a_path_shorter_than_the_base_path() {
    let file_server = FileServer::new(String::from("/static/content"), String::from("static/"));
    let request = HttpRequest::new(HttpMethod::GET, String::from("/st"));
    assert_eq!(file_server.file_system_path(&request), None);
    let response = file_server.handle(request, &read_test_folder);
    assert_eq!(response.status_code, StatusCode::_404);
}

#[test]
fn it_names_the_file_below_the_base_folder() {
    let file_server = FileServer::new(String::from("static"), String::from("public"));
    let request = HttpRequest::new(HttpMethod::GET, String::from("/static/css/site.css"));
    assert_eq!(
        file_server.file_system_path(&request),
        Some(String::from("public//css/site.css"))
    );
}

#[test]
fn it_serves_file_bytes_as_plain_text() {
    let response = FileServer::respond(Some(vec![104, 105]));
    assert_eq!(response.status_code, StatusCode::_200);
    assert_eq!(response.content, Some(vec![104, 105]));
    assert_eq!(
        response.headers.get("Content-Type").unwrap(),
        "text/plain; charset=utf-8"
    );
    let missing = FileServer::respond(None);
    assert_eq!(missing.status_code, StatusCode::_404);
    assert!(missing.content.is_none());
}
