//! The server: its configuration and routes, what it answers to a
//! request, and the decisions of its accept loop.

use std::sync::atomic::{AtomicBool, Ordering};
use std::sync::Arc;
use vstd::prelude::*;
use vstd::string::*;
use crate::http::file_server::{rooted, FileServer};
use crate::http::http_router::{HttpRouteHandler, HttpRouter};
use crate::http::route_path::pattern_of;
use crate::http::route_table::{HandlerView, RouteTable};
use crate::http::wire::{response_bytes, write_response};
use crate::http::{HttpMethod, HttpRequest, HttpResponse};

verus! {

/// How long the accept loop sleeps when no connection waits, in
/// milliseconds.
pub const ACCEPT_RETRY_MILLIS: u64 = 5;

/// How long a worker waits for a connection before it asks again, in
/// seconds.
pub const WORKER_WAIT_SECONDS: u64 = 60 * 60 * 24;

/// What an attempt to accept a connection gave.
#[derive(Debug, PartialEq, Eq, Clone, Copy, Structural)]
pub enum AcceptOutcome {
    /// A connection was accepted.
    Connection,
    /// No connection waits.
    WouldBlock,
    /// The attempt failed otherwise.
    Failed,
}

/// What the accept loop does with an outcome.
#[derive(Debug, PartialEq, Eq, Clone, Copy, Structural)]
pub enum AcceptAction {
    /// Put the connection on the queue of the workers.
    Enqueue,
    /// Sleep for so many milliseconds.
    Sleep(u64),
    /// Report the failure and go on.
    Report,
}

/// What the accept loop does with `outcome`. It does not depend on the
/// shutdown flag: a connection that was accepted is always queued.
pub open spec fn action_for(outcome: AcceptOutcome) -> AcceptAction {
    match outcome {
        AcceptOutcome::Connection => AcceptAction::Enqueue,
        AcceptOutcome::WouldBlock => AcceptAction::Sleep(ACCEPT_RETRY_MILLIS),
        AcceptOutcome::Failed => AcceptAction::Report,
    }
}

/// The state of the accept loop: accepting until the shutdown flag is
/// seen, stopped from then on.
pub struct Acceptor {
    accepting: bool,
}

impl Acceptor {
    /// Whether the loop goes on accepting.
    pub closed spec fn accepting(&self) -> bool {
        self.accepting
    }

    /// An accept loop at its start.
    pub fn new() -> (acceptor: Acceptor)
        ensures
            acceptor.accepting(),
    {
        Acceptor { accepting: true }
    }

    /// Whether the loop goes on accepting.
    pub fn is_accepting(&self) -> (accepting: bool)
        ensures
            accepting == self.accepting(),
    {
        self.accepting
    }

    /// One turn of the loop: what to do with the outcome of the attempt to
    /// accept, and whether the loop goes on, given the shutdown flag as it
    /// was read after the attempt. A stopped loop makes no attempt, so it
    /// has no turn.
    pub fn step(&mut self, outcome: AcceptOutcome, shutdown_requested: bool) -> (action: AcceptAction)
        requires
            old(self).accepting(),
        ensures
            action == action_for(outcome),
            final(self).accepting() == !shutdown_requested,
    {
        self.accepting = !shutdown_requested;
        match outcome {
            AcceptOutcome::Connection => AcceptAction::Enqueue,
            AcceptOutcome::WouldBlock => AcceptAction::Sleep(ACCEPT_RETRY_MILLIS),
            AcceptOutcome::Failed => AcceptAction::Report,
        }
    }
}

/// What a function from requests to responses does, as a handler.
pub open spec fn function_view<T: Fn(HttpRequest) -> HttpResponse>(handler: T) -> HandlerView {
    HandlerView {
        accepts: |request: HttpRequest| call_requires(handler, (request,)),
        answers: |request: HttpRequest, response: HttpResponse| call_ensures(handler, (request,), response),
    }
}

/// The route under which the files for `path` are registered: `path`
/// with a trailing `*` segment, which is added where it is not there.
pub open spec fn file_route(path: Seq<char>) -> Seq<char> {
    if ends_with(path, "/*"@) {
        path
    } else if ends_with(path, "/"@) {
        path + "*"@
    } else {
        path + "/*"@
    }
}

/// The path that the requests for the files begin with: `path` without
/// a trailing `/*` or `/`.
pub open spec fn file_base_path(path: Seq<char>) -> Seq<char> {
    if ends_with(path, "/*"@) {
        path.take(path.len() - 2)
    } else if ends_with(path, "/"@) {
        path.take(path.len() - 1)
    } else {
        path
    }
}

/// Whether `text` ends with `tail`.
pub open spec fn ends_with(text: Seq<char>, tail: Seq<char>) -> bool {
    text.len() >= tail.len() && text.skip(text.len() - tail.len()) == tail
}

/// The route and the base path for serving files under `path`.
pub fn file_route_of(path: &str) -> (parts: (String, String))
    ensures
        parts.0@ == file_route(path@),
        parts.1@ == file_base_path(path@),
{
    proof {
        reveal_strlit("/*");
        reveal_strlit("/");
        reveal_strlit("*");
    }
    let n = path.unicode_len();
    if n >= 2 && path.get_char(n - 2) == '/' && path.get_char(n - 1) == '*' {
        assert(path@.skip(n - 2) =~= "/*"@);
        let base = path.substring_char(0, n - 2);
        assert(base@ =~= path@.take(n - 2));
        (path.to_owned(), base.to_owned())
    } else if n >= 1 && path.get_char(n - 1) == '/' {
        assert(path@.skip(n - 1) =~= "/"@);
        assert(!ends_with(path@, "/*"@)) by {
            if ends_with(path@, "/*"@) {
                assert(path@.skip(n - 2)[1] == '*');
            }
        }
        let base = path.substring_char(0, n - 1);
        assert(base@ =~= path@.take(n - 1));
        let mut route = path.to_owned();
        route.append("*");
        (route, base.to_owned())
    } else {
        assert(!ends_with(path@, "/*"@)) by {
            if ends_with(path@, "/*"@) {
                assert(path@.skip(n - 2)[0] == '/');
                assert(path@.skip(n - 2)[1] == '*');
            }
        }
        assert(!ends_with(path@, "/"@)) by {
            if ends_with(path@, "/"@) {
                assert(path@.skip(n - 1)[0] == '/');
            }
        }
        let mut route = path.to_owned();
        route.append("/*");
        (route, path.to_owned())
    }
}

/// Whether `handler` serves files: it can be invoked on every request,
/// and answers as a file server for `base_path` and `base_folder` does
/// that reads with `read`.
pub open spec fn serves_files<R: Fn(String) -> Option<Vec<u8>>>(
    handler: HandlerView,
    base_path: Seq<char>,
    base_folder: Seq<char>,
    read: R,
) -> bool {
    &&& handler.accepts_all()
    &&& exists|files: FileServer|
        #![trigger files.base_path()]
        files.base_path() == base_path && files.base_folder() == base_folder && forall|
            request: HttpRequest,
            response: HttpResponse,
        | #[trigger] (handler.answers)(request, response) ==> files.answers(&read, request, response)
}

/// The server: where it listens, how many workers it runs, its routes,
/// and the flag that asks it to stop.
pub struct HttpServer {
    listen_addr: &'static str,
    port: u16,
    router: HttpRouter,
    threads_count: u8,
    pub should_turn_off: Arc<AtomicBool>,
}

impl HttpServer {
    /// The invariant of the server: its router is well-formed.
    pub closed spec fn wf(&self) -> bool {
        self.router.wf()
    }

    /// The router of the server.
    pub closed spec fn router(&self) -> HttpRouter {
        self.router
    }

    /// The address that the server listens on.
    pub closed spec fn spec_listen_addr(&self) -> Seq<char> {
        self.listen_addr@
    }

    /// The port that the server listens on.
    pub closed spec fn spec_port(&self) -> u16 {
        self.port
    }

    /// The number of workers.
    pub closed spec fn spec_threads_count(&self) -> u8 {
        self.threads_count
    }

    /// The flag that asks the server to stop.
    pub closed spec fn shutdown_flag(&self) -> Arc<AtomicBool> {
        self.should_turn_off
    }

    /// What stays as it is when a route is registered.
    pub open spec fn same_configuration(&self, before: &HttpServer) -> bool {
        &&& self.spec_listen_addr() == before.spec_listen_addr()
        &&& self.spec_port() == before.spec_port()
        &&& self.spec_threads_count() == before.spec_threads_count()
        &&& self.shutdown_flag() == before.shutdown_flag()
    }

    /// The server after `handler` was registered under `method` for
    /// `path`, seen from the server `before`.
    pub open spec fn has_registered(
        &self,
        before: &HttpServer,
        method: HttpMethod,
        path: Seq<char>,
        handler: HandlerView,
    ) -> bool {
        &&& self.wf()
        &&& self.same_configuration(before)
        &&& self.router().has_registered(&before.router(), method, path, handler)
    }

    /// A server without routes, which is not asked to stop.
    pub fn new(listen_addr: &'static str, port: u16, threads_count: u8) -> (server: HttpServer)
        ensures
            server.wf(),
            server.spec_listen_addr() == listen_addr@,
            server.spec_port() == port,
            server.spec_threads_count() == threads_count,
            forall|method: HttpMethod| #[trigger] server.router().table(method) == RouteTable::empty(),
            server.router().not_found() is None,
    {
        HttpServer {
            listen_addr,
            port,
            router: HttpRouter::default(),
            threads_count,
            should_turn_off: Arc::new(AtomicBool::new(false)),
        }
    }

    /// The address that the server listens on.
    pub fn listen_addr(&self) -> (addr: &'static str)
        ensures
            addr@ == self.spec_listen_addr(),
    {
        self.listen_addr
    }

    /// The port that the server listens on.
    pub fn port(&self) -> (port: u16)
        ensures
            port == self.spec_port(),
    {
        self.port
    }

    /// The number of workers.
    pub fn threads_count(&self) -> (count: u8)
        ensures
            count == self.spec_threads_count(),
    {
        self.threads_count
    }

    /// Asks the server behind the flag to stop accepting.
    pub fn close(should_turn_off: Arc<AtomicBool>) {
        should_turn_off.store(true, Ordering::Relaxed)
    }

    /// Whether the server was asked to stop accepting.
    pub fn is_closing(&self) -> bool {
        self.should_turn_off.load(Ordering::Relaxed)
    }

    /// Whether `path` can be registered under `method`.
    pub fn accepts_route(&self, method: HttpMethod, path: &str) -> (ok: bool)
        requires
            self.wf(),
        ensures
            ok == self.router().admits(method, path@),
    {
        self.router.can_register(method, path)
    }

    /// Registers `handler` under `method` for `path`.
    pub fn route<T: Fn(HttpRequest) -> HttpResponse + Send + Sync + 'static>(
        &mut self,
        method: HttpMethod,
        path: &str,
        handler: T,
    )
        requires
            old(self).wf(),
            old(self).router().admits(method, path@),
            forall|request: HttpRequest| call_requires(handler, (request,)),
        ensures
            final(self).has_registered(old(self), method, path@, function_view(handler)),
    {
        let boxed: Box<dyn HttpRouteHandler> = Box::new(handler);
        self.router.on(method, path, boxed);
        proof {
            assert(self.router().table(method) =~~= old(self).router().table(method).with_route(
                pattern_of(path@),
                function_view(handler),
            ));
        }
    }

    /// Registers `handler` for the `GET` requests for `path`.
    pub fn get<T: Fn(HttpRequest) -> HttpResponse + Send + Sync + 'static>(&mut self, path: &str, handler: T)
        requires
            old(self).wf(),
            old(self).router().admits(HttpMethod::GET, path@),
            forall|request: HttpRequest| call_requires(handler, (request,)),
        ensures
            final(self).has_registered(old(self), HttpMethod::GET, path@, function_view(handler)),
    {
        self.route(HttpMethod::GET, path, handler);
    }

    /// Registers `handler` for the `POST` requests for `path`.
    pub fn post<T: Fn(HttpRequest) -> HttpResponse + Send + Sync + 'static>(&mut self, path: &str, handler: T)
        requires
            old(self).wf(),
            old(self).router().admits(HttpMethod::POST, path@),
            forall|request: HttpRequest| call_requires(handler, (request,)),
        ensures
            final(self).has_registered(old(self), HttpMethod::POST, path@, function_view(handler)),
    {
        self.route(HttpMethod::POST, path, handler);
    }

    /// Registers `handler` for the `PUT` requests for `path`.
    pub fn put<T: Fn(HttpRequest) -> HttpResponse + Send + Sync + 'static>(&mut self, path: &str, handler: T)
        requires
            old(self).wf(),
            old(self).router().admits(HttpMethod::PUT, path@),
            forall|request: HttpRequest| call_requires(handler, (request,)),
        ensures
            final(self).has_registered(old(self), HttpMethod::PUT, path@, function_view(handler)),
    {
        self.route(HttpMethod::PUT, path, handler);
    }

    /// Registers `handler` for the `DELETE` requests for `path`.
    pub fn delete<T: Fn(HttpRequest) -> HttpResponse + Send + Sync + 'static>(
        &mut self,
        path: &str,
        handler: T,
    )
        requires
            old(self).wf(),
            old(self).router().admits(HttpMethod::DELETE, path@),
            forall|request: HttpRequest| call_requires(handler, (request,)),
        ensures
            final(self).has_registered(old(self), HttpMethod::DELETE, path@, function_view(handler)),
    {
        self.route(HttpMethod::DELETE, path, handler);
    }

    /// Serves the files below `base_folder` for the `GET` requests below
    /// `path`; `read` reads a file by its name, and gives `None` where it
    /// cannot.
    pub fn serve_files<R: Fn(String) -> Option<Vec<u8>> + Send + Sync + 'static>(
        &mut self,
        path: &str,
        base_folder: &str,
        read: R,
    )
        requires
            old(self).wf(),
            old(self).router().admits(HttpMethod::GET, file_route(path@)),
            forall|name: String| call_requires(read, (name,)),
        ensures
            exists|handler: HandlerView|
                #![trigger final(self).has_registered(old(self), HttpMethod::GET, file_route(path@), handler)]
                final(self).has_registered(old(self), HttpMethod::GET, file_route(path@), handler)
                    && serves_files(handler, rooted(file_base_path(path@)), base_folder@, read),
    {
        let (route, base_path) = file_route_of(path);
        let file_server = FileServer::new(base_path, base_folder.to_owned());
        let ghost files = file_server;
        let handler = move |request: HttpRequest| -> (response: HttpResponse)
            ensures
                file_server.answers(&read, request, response),
            { file_server.handle(request, &read) };
        self.route(HttpMethod::GET, route.as_str(), handler);
        proof {
            let view = function_view(handler);
            assert(forall|request: HttpRequest, response: HttpResponse| #[trigger]
                (view.answers)(request, response) ==> files.answers(&read, request, response));
            assert(serves_files(view, rooted(file_base_path(path@)), base_folder@, read));
        }
    }

    /// Answers `request`: the bytes of the response that the router gives,
    /// under the version of the request.
    pub fn answer(&self, request: HttpRequest) -> (bytes: Vec<u8>)
        requires
            self.wf(),
        ensures
            exists|response: HttpResponse|
                #![trigger self.router().answers(request, response)]
                self.router().answers(request, response) && bytes@ == response_bytes(
                    request.http_version,
                    response.status_code,
                    response.headers.entries(),
                    response@.content,
                ),
    {
        let version = request.http_version;
        let response = self.router.handle(request);
        let bytes = write_response(version, &response);
        proof {
            assert(self.router().answers(request, response));
        }
        bytes
    }
}

} // verus!
