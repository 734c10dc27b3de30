use web_server::http::http_router::{HttpRouteHandler, HttpRouteNode, HttpRouter};
use web_server::http::route_path::{pattern, segments};
use web_server::http::{ConfigError, HttpMethod, HttpRequest, HttpResponse, StatusCode};

fn says(text: &'static str) -> Box<dyn HttpRouteHandler> {
    Box::new(move |_: HttpRequest| HttpResponse::new().with_string_content(text))
}

fn ask(router: &HttpRouter, method: HttpMethod, path: &str) -> HttpResponse {
    router.handle(HttpRequest::new(method, String::from(path)))
}

fn body(router: &HttpRouter, method: HttpMethod, path: &str) -> String {
    ask(router, method, path).content_as_string()
}

#[test]
fn exact_path_matches_and_its_neighbours_do_not() {
    let mut router = HttpRouter::new();
    router.on(HttpMethod::GET, "/hello/world", says("Called!"));
    assert_eq!(body(&router, HttpMethod::GET, "/hello/world"), "Called!");
    assert_eq!(ask(&router, HttpMethod::GET, "/hello").status_code, StatusCode::_404);
    assert_eq!(ask(&router, HttpMethod::GET, "/hello/world/x").status_code, StatusCode::_404);
    assert_eq!(ask(&router, HttpMethod::GET, "/hello/world/").status_code, StatusCode::_404);
    assert_eq!(ask(&router, HttpMethod::GET, "/").status_code, StatusCode::_404);
}

#[test]
fn leading_slash_is_optional() {
    let mut router = HttpRouter::new();
    router.on(HttpMethod::GET, "hello/world", says("Called!"));
    assert_eq!(body(&router, HttpMethod::GET, "/hello/world"), "Called!");
    assert_eq!(body(&router, HttpMethod::GET, "hello/world"), "Called!");
}

#[test]
fn wildcard_takes_the_rest_and_keeps_the_path() {
    let mut router = HttpRouter::new();
    router.on(
        HttpMethod::GET,
        "/static/*",
        Box::new(|x: HttpRequest| HttpResponse::new().with_string_content(x.path.as_str())),
    );
    assert_eq!(body(&router, HttpMethod::GET, "/static/a/b/c"), "/static/a/b/c");
    assert_eq!(body(&router, HttpMethod::GET, "/static/a"), "/static/a");
    assert_eq!(body(&router, HttpMethod::GET, "/static/"), "/static/");
    assert_eq!(ask(&router, HttpMethod::GET, "/static").status_code, StatusCode::_404);
}

#[test]
fn variable_binds_one_segment() {
    let mut router = HttpRouter::new();
    router.on(
        HttpMethod::GET,
        "/with_var/?key",
        Box::new(|x: HttpRequest| {
            HttpResponse::new().with_string_content(x.route_params.get("key").unwrap())
        }),
    );
    assert_eq!(body(&router, HttpMethod::GET, "/with_var/expected"), "expected");
    assert_eq!(body(&router, HttpMethod::GET, "/with_var/?key"), "?key");
    assert_eq!(
        ask(&router, HttpMethod::GET, "/with_var/expected/more").status_code,
        StatusCode::_404
    );
    assert_eq!(ask(&router, HttpMethod::GET, "/with_var").status_code, StatusCode::_404);
}

#[test]
fn variables_bind_along_the_path() {
    let mut router = HttpRouter::new();
    router.on(
        HttpMethod::GET,
        "/users/?user/posts/?post",
        Box::new(|x: HttpRequest| {
            let text = format!(
                "{}:{}",
                x.route_params.get("user").unwrap(),
                x.route_params.get("post").unwrap()
            );
            HttpResponse::new().with_string_content(text.as_str())
        }),
    );
    assert_eq!(body(&router, HttpMethod::GET, "/users/ana/posts/7"), "ana:7");
}

#[test]
fn literal_wins_over_variable() {
    let mut router = HttpRouter::new();
    router.on(HttpMethod::GET, "/users/?user", says("variable"));
    router.on(HttpMethod::GET, "/users/me", says("literal"));
    assert_eq!(body(&router, HttpMethod::GET, "/users/me"), "literal");
    assert_eq!(body(&router, HttpMethod::GET, "/users/you"), "variable");
}

#[test]
fn literal_wins_over_wildcard() {
    let mut router = HttpRouter::new();
    router.on(HttpMethod::GET, "/files/*", says("wildcard"));
    router.on(HttpMethod::GET, "/files/index", says("literal"));
    assert_eq!(body(&router, HttpMethod::GET, "/files/index"), "literal");
    assert_eq!(body(&router, HttpMethod::GET, "/files/other/deep"), "wildcard");
    assert_eq!(
        ask(&router, HttpMethod::GET, "/files/index/deep").status_code,
        StatusCode::_404
    );
}

#[test]
fn a_node_on_the_way_without_handler_does_not_match() {
    let mut router = HttpRouter::new();
    router.on(HttpMethod::GET, "/a/b/c", says("deep"));
    assert_eq!(ask(&router, HttpMethod::GET, "/a/b").status_code, StatusCode::_404);
    assert_eq!(ask(&router, HttpMethod::GET, "/a").status_code, StatusCode::_404);
    router.on(HttpMethod::GET, "/a/b", says("middle"));
    assert_eq!(body(&router, HttpMethod::GET, "/a/b"), "middle");
    assert_eq!(body(&router, HttpMethod::GET, "/a/b/c"), "deep");
}

#[test]
fn registering_again_replaces_the_handler() {
    let mut router = HttpRouter::new();
    router.on(HttpMethod::GET, "/hello", says("first"));
    router.on(HttpMethod::GET, "/hello", says("second"));
    assert_eq!(body(&router, HttpMethod::GET, "/hello"), "second");
}

#[test]
fn methods_do_not_see_each_other() {
    let mut router = HttpRouter::new();
    router.on(HttpMethod::GET, "/path", says("get"));
    for method in [HttpMethod::POST, HttpMethod::PUT, HttpMethod::DELETE, HttpMethod::OPTION] {
        assert_eq!(ask(&router, method, "/path").status_code, StatusCode::_404);
    }
    router.on(HttpMethod::PUT, "/path", says("put"));
    assert_eq!(body(&router, HttpMethod::GET, "/path"), "get");
    assert_eq!(body(&router, HttpMethod::PUT, "/path"), "put");
}

#[test]
fn default_not_found_is_404_without_body() {
    let router = HttpRouter::default();
    let response = ask(&router, HttpMethod::GET, "/anything");
    assert_eq!(response.status_code, StatusCode::_404);
    assert!(response.content.is_none());
    assert!(response.content_type.is_none());
    assert_eq!(response.headers.len(), 0);
}

#[test]
fn last_not_found_handler_wins() {
    let mut router = HttpRouter::new();
    router.on_not_found(says("first"));
    router.on_not_found(says("second"));
    assert_eq!(body(&router, HttpMethod::GET, "/missing"), "second");
    let direct = router.handle_not_found(HttpRequest::new(HttpMethod::GET, String::from("/hello")));
    assert_eq!(direct.content_as_string(), "second");
}

#[test]
fn not_found_handler_gets_the_request_without_bindings() {
    let mut router = HttpRouter::new();
    router.on(HttpMethod::GET, "/users/?user/posts", says("posts"));
    router.on_not_found(Box::new(|x: HttpRequest| {
        let text = format!("{} {}", x.path, x.route_params.len());
        HttpResponse::new().with_string_content(text.as_str()).not_found()
    }));
    let response = ask(&router, HttpMethod::GET, "/users/ana/likes");
    assert_eq!(response.status_code, StatusCode::_404);
    assert_eq!(response.content_as_string(), "/users/ana/likes 0");
}

#[test]
fn wildcard_before_the_end_is_refused() {
    let mut router = HttpRouter::new();
    assert_eq!(
        router.register(HttpMethod::GET, "/static/*/more", says("never")),
        Err(ConfigError::WildcardNotLast)
    );
    assert!(!router.can_register(HttpMethod::GET, "/static/*/more"));
    assert_eq!(ask(&router, HttpMethod::GET, "/static/x/more").status_code, StatusCode::_404);
    assert_eq!(router.register(HttpMethod::GET, "/static/*", says("files")), Ok(()));
    assert_eq!(body(&router, HttpMethod::GET, "/static/x/more"), "files");
}

#[test]
fn second_catch_all_child_is_refused() {
    let mut router = HttpRouter::new();
    assert_eq!(router.register(HttpMethod::GET, "/users/?user", says("user")), Ok(()));
    assert_eq!(
        router.register(HttpMethod::GET, "/users/?name", says("name")),
        Err(ConfigError::ConflictingSegment)
    );
    assert_eq!(
        router.register(HttpMethod::GET, "/users/*", says("all")),
        Err(ConfigError::ConflictingSegment)
    );
    assert_eq!(
        router.register(HttpMethod::GET, "/users/?name/posts", says("posts")),
        Err(ConfigError::ConflictingSegment)
    );
    assert!(!router.can_register(HttpMethod::GET, "/users/*"));
    assert!(router.can_register(HttpMethod::GET, "/users/?user/posts"));
    assert!(router.can_register(HttpMethod::POST, "/users/*"));
    assert_eq!(body(&router, HttpMethod::GET, "/users/ana"), "user");
    assert_eq!(router.register(HttpMethod::GET, "/users/?user/posts", says("posts")), Ok(()));
    assert_eq!(body(&router, HttpMethod::GET, "/users/ana/posts"), "posts");
    assert_eq!(body(&router, HttpMethod::GET, "/users/ana"), "user");
}

#[test]
fn a_refused_path_leaves_the_routes_as_they_were() {
    let mut router = HttpRouter::new();
    router.on(HttpMethod::GET, "/a/?x/c", says("old"));
    assert_eq!(
        router.register(HttpMethod::GET, "/a/?x/d/?y/e/*/f", says("new")),
        Err(ConfigError::WildcardNotLast)
    );
    assert_eq!(
        router.register(HttpMethod::GET, "/a/?other/z", says("new")),
        Err(ConfigError::ConflictingSegment)
    );
    assert_eq!(body(&router, HttpMethod::GET, "/a/1/c"), "old");
    assert_eq!(ask(&router, HttpMethod::GET, "/a/1/z").status_code, StatusCode::_404);
    assert_eq!(ask(&router, HttpMethod::GET, "/a/1/d").status_code, StatusCode::_404);
}

#[test]
fn resolving_twice_gives_the_same() {
    let mut router = HttpRouter::new();
    router.on(HttpMethod::GET, "/users/?user/*", says("files"));
    let first = router.resolve(HttpMethod::GET, "/users/ana/a/b");
    let second = router.resolve(HttpMethod::GET, "/users/ana/a/b");
    let (first_handler, first_params) = first.unwrap();
    let (second_handler, second_params) = second.unwrap();
    assert!(std::ptr::eq(first_handler, second_handler));
    assert_eq!(first_params.len(), 1);
    assert_eq!(second_params.len(), 1);
    assert_eq!(first_params.get("user"), Some(&String::from("ana")));
    assert_eq!(second_params.get("user"), Some(&String::from("ana")));
    assert!(router.resolve(HttpMethod::GET, "/users").is_none());
    assert!(router.resolve(HttpMethod::GET, "/users").is_none());
}

#[test]
fn route_parameters_of_the_request_are_kept() {
    let mut router = HttpRouter::new();
    router.on(
        HttpMethod::GET,
        "/users/?user",
        Box::new(|x: HttpRequest| {
            let text = format!(
                "{} {}",
                x.route_params.get("user").unwrap(),
                x.route_params.get("kept").unwrap()
            );
            HttpResponse::new().with_string_content(text.as_str())
        }),
    );
    let mut request = HttpRequest::new(HttpMethod::GET, String::from("/users/ana"));
    request.route_params.insert(String::from("user"), String::from("before"));
    request.route_params.insert(String::from("kept"), String::from("yes"));
    assert_eq!(router.handle(request).content_as_string(), "ana yes");
}

#[test]
fn node_registers_and_resolves_below_itself() {
    let mut node: HttpRouteNode<dyn HttpRouteHandler> = HttpRouteNode::new();
    let steps = pattern("/a/?x/c");
    assert!(node.admits(&steps, 0));
    node.on(&steps, 0, says("deep"));
    assert!(node.admits(&pattern("/a/?x"), 0));
    assert!(!node.admits(&pattern("/a/?y"), 0));
    assert!(!node.admits(&pattern("/a/*"), 0));
    assert!(node.admits(&pattern("/b/*"), 0));
    let (handler, params) = node.resolve(&segments("/a/1/c")).unwrap();
    assert_eq!(params.len(), 1);
    assert_eq!(params.get("x"), Some(&String::from("1")));
    let response = handler.invoke(HttpRequest::new(HttpMethod::GET, String::from("/a/1/c")));
    assert_eq!(response.content_as_string(), "deep");
    assert!(node.resolve(&segments("/a/1")).is_none());
    assert!(node.resolve(&segments("/")).is_none());
}

#[test]
fn same_variable_name_twice_keeps_the_later_value() {
    let mut router = HttpRouter::new();
    router.on(
        HttpMethod::GET,
        "/?id/?id",
        Box::new(|x: HttpRequest| {
            HttpResponse::new().with_string_content(x.route_params.get("id").unwrap())
        }),
    );
    assert_eq!(body(&router, HttpMethod::GET, "/first/second"), "second");
}
