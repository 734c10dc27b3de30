use std::sync::atomic::Ordering;
use web_server::http::http_server::{
    file_route_of, AcceptAction, AcceptOutcome, Acceptor, HttpServer, ACCEPT_RETRY_MILLIS,
    WORKER_WAIT_SECONDS,
};
use web_server::http::{HttpMethod, HttpRequest, HttpResponse};

fn read_nothing(_: String) -> Option<Vec<u8>> {
    None
}

fn read_test_folder(name: String) -> Option<Vec<u8>> {
    if name == "static//test_content.txt" {
        Some(String::from("Test content here!\n").into_bytes())
    } else {
        None
    }
}

fn body_of(answer: &str) -> &str {
    match answer.find("\r\n\r\n") {
        Some(at) => &answer[at + 4..],
        None => panic!("no empty line in the answer"),
    }
}

fn answer(server: &HttpServer, method: HttpMethod, path: &str) -> String {
    let bytes = server.answer(HttpRequest::new(method, String::from(path)));
    String::from_utf8(bytes).unwrap()
}

#[test]
fn server_keeps_its_configuration() {
    let server = HttpServer::new("127.0.0.1", 7878, 32);
    assert_eq!(server.listen_addr(), "127.0.0.1");
    assert_eq!(server.port(), 7878);
    assert_eq!(server.threads_count(), 32);
    assert!(!server.is_closing());
}

#[test]
fn simple_path_found() {
    let mut server = HttpServer::new("127.0.0.1", 7878, 1);
    let serve_should_turn_off = server.should_turn_off.clone();
    server.get("/path", |_| {
        HttpResponse::default().with_string_content("Found!")
    });
    let resp = answer(&server, HttpMethod::GET, "/path");
    assert_eq!(body_of(resp.as_str()), "Found!");
    assert_eq!(
        resp,
        "HTTP/1.1 200 OK\r\nContent-Type: text/plain; charset=utf-8\r\nContent-Length: 6\r\n\r\nFound!"
    );
    serve_should_turn_off.store(true, Ordering::Relaxed);
    assert!(server.is_closing());
    assert_eq!(
        answer(&server, HttpMethod::GET, "/other"),
        "HTTP/1.1 404 Not Found\r\n\r\n"
    );
}

#[test]
fn server_registers_under_each_method() {
    let mut server = HttpServer::new("127.0.0.1", 7878, 1);
    server.get("/r", |_| HttpResponse::default().with_string_content("get"));
    server.post("/r", |_| HttpResponse::default().with_string_content("post"));
    server.put("/r", |_| HttpResponse::default().with_string_content("put"));
    server.delete("/r", |_| HttpResponse::default().with_string_content("delete"));
    assert!(answer(&server, HttpMethod::GET, "/r").ends_with("\r\n\r\nget"));
    assert!(answer(&server, HttpMethod::POST, "/r").ends_with("\r\n\r\npost"));
    assert!(answer(&server, HttpMethod::PUT, "/r").ends_with("\r\n\r\nput"));
    assert!(answer(&server, HttpMethod::DELETE, "/r").ends_with("\r\n\r\ndelete"));
    assert!(answer(&server, HttpMethod::OPTION, "/r").starts_with("HTTP/1.1 404 Not Found\r\n"));
}

#[test]
fn server_says_which_routes_it_takes() {
    let mut server = HttpServer::new("127.0.0.1", 7878, 1);
    assert!(server.accepts_route(HttpMethod::GET, "/test/?param"));
    server.route(HttpMethod::GET, "/test/?param", |x: HttpRequest| {
        let content = format!("Called with param: {}\n", x.route_params.get("param").unwrap());
        HttpResponse::default().with_string_content(content.as_str())
    });
    assert!(!server.accepts_route(HttpMethod::GET, "/test/*"));
    assert!(!server.accepts_route(HttpMethod::GET, "/*/test"));
    assert!(server.accepts_route(HttpMethod::GET, "/test/?param/more"));
    assert!(answer(&server, HttpMethod::GET, "/test/7").ends_with("\r\n\r\nCalled with param: 7\n"));
}

#[test]
fn file_route_ends_with_a_wildcard() {
    assert_eq!(
        file_route_of("static"),
        (String::from("static/*"), String::from("static"))
    );
    assert_eq!(
        file_route_of("/static/"),
        (String::from("/static/*"), String::from("/static"))
    );
    assert_eq!(
        file_route_of("/static/*"),
        (String::from("/static/*"), String::from("/static"))
    );
    assert_eq!(file_route_of(""), (String::from("/*"), String::from("")));
    assert_eq!(file_route_of("/"), (String::from("/*"), String::from("")));
}

#[test]
fn file_served() {
    let mut server = HttpServer::new("127.0.0.1", 7879, 1);
    server.serve_files("static", "static", read_test_folder);
    let resp = answer(&server, HttpMethod::GET, "/static/test_content.txt");
    assert_eq!(body_of(resp.as_str()), "Test content here!\n");
    assert_eq!(
        resp,
        "HTTP/1.1 200 OK\r\nContent-Type: text/plain; charset=utf-8\r\nContent-Length: 19\r\n\r\nTest content here!\n"
    );
    assert_eq!(
        answer(&server, HttpMethod::GET, "/static/missing.txt"),
        "HTTP/1.1 404 Not Found\r\n\r\n"
    );
    assert_eq!(
        answer(&server, HttpMethod::POST, "/static/test_content.txt"),
        "HTTP/1.1 404 Not Found\r\n\r\n"
    );
    let mut other = HttpServer::new("127.0.0.1", 7879, 1);
    other.serve_files("/files/", "static", read_nothing);
    assert_eq!(
        answer(&other, HttpMethod::GET, "/files/test_content.txt"),
        "HTTP/1.1 404 Not Found\r\n\r\n"
    );
}

#[test]
fn close_sets_the_flag() {
    let server = HttpServer::new("127.0.0.1", 7878, 1);
    let flag = server.should_turn_off.clone();
    assert!(!flag.load(Ordering::Relaxed));
    HttpServer::close(server.should_turn_off.clone());
    assert!(flag.load(Ordering::Relaxed));
    assert!(server.is_closing());
}

#[test]
fn acceptor_queues_sleeps_and_reports() {
    let mut acceptor = Acceptor::new();
    assert!(acceptor.is_accepting());
    assert_eq!(acceptor.step(AcceptOutcome::Connection, false), AcceptAction::Enqueue);
    assert!(acceptor.is_accepting());
    assert_eq!(
        acceptor.step(AcceptOutcome::WouldBlock, false),
        AcceptAction::Sleep(ACCEPT_RETRY_MILLIS)
    );
    assert!(acceptor.is_accepting());
    assert_eq!(acceptor.step(AcceptOutcome::Failed, false), AcceptAction::Report);
    assert!(acceptor.is_accepting());
}

#[test]
fn acceptor_stops_when_the_flag_is_set() {
    let mut acceptor = Acceptor::new();
    assert_eq!(acceptor.step(AcceptOutcome::Connection, true), AcceptAction::Enqueue);
    assert!(!acceptor.is_accepting());
    let mut other = Acceptor::new();
    assert_eq!(other.step(AcceptOutcome::WouldBlock, true), AcceptAction::Sleep(5));
    assert!(!other.is_accepting());
}

#[test]
fn waiting_times_are_as_configured() {
    assert_eq!(ACCEPT_RETRY_MILLIS, 5);
    assert_eq!(WORKER_WAIT_SECONDS, 86400);
}
