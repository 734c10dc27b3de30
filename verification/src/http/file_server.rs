//! Serving files below a folder for the requests below a path.

use vstd::prelude::*;
use vstd::string::*;
use crate::http::http_router::default_not_found;
use crate::http::{HttpContentType, HttpRequest, HttpResponse, HttpResponseView};

verus! {

/// Answers requests for paths below `base_path` with the files below
/// `base_folder`.
pub struct FileServer {
    base_folder: String,
    base_path: String,
}

/// `base_path` with a `/` before it, where it has none.
pub open spec fn rooted(base_path: Seq<char>) -> Seq<char> {
    if base_path.len() > 0 && base_path[0] == '/' {
        base_path
    } else {
        "/"@ + base_path
    }
}

/// The response for what reading the file gave: the bytes as plain text,
/// or 404 where nothing could be read.
pub open spec fn file_response(contents: Option<Seq<u8>>) -> HttpResponseView {
    match contents {
        Some(bytes) => HttpResponseView::empty().with_content(bytes, HttpContentType::TEXTPLAIN),
        None => default_not_found(),
    }
}

impl FileServer {
    /// The path that the served requests begin with.
    pub closed spec fn base_path(&self) -> Seq<char> {
        self.base_path@
    }

    /// The folder that the files are read from.
    pub closed spec fn base_folder(&self) -> Seq<char> {
        self.base_folder@
    }

    /// The file that answers a request for `path`: what follows the base
    /// path, below the base folder. `None` where `path` is shorter than the
    /// base path.
    pub open spec fn file_for(&self, path: Seq<char>) -> Option<Seq<char>> {
        if path.len() >= self.base_path().len() {
            Some(self.base_folder() + "/"@ + path.skip(self.base_path().len() as int))
        } else {
            None
        }
    }

    /// Whether `response` may answer `request`, where `read` reads the
    /// files: it holds what `read` gave for the file of the request, or is a
    /// 404 where there is no such file or it could not be read.
    pub open spec fn answers<R: Fn(String) -> Option<Vec<u8>>>(
        &self,
        read: &R,
        request: HttpRequest,
        response: HttpResponse,
    ) -> bool {
        match self.file_for(request.path@) {
            Some(file) => exists|name: String, contents: Option<Vec<u8>>|
                #![trigger call_ensures(*read, (name,), contents)]
                name@ == file && call_ensures(*read, (name,), contents) && response@ == file_response(
                    match contents {
                        Some(bytes) => Some(bytes@),
                        None => None,
                    },
                ),
            None => response@ == default_not_found(),
        }
    }

    /// A file server for the paths below `base_path`, which gets a `/`
    /// before it where it has none.
    pub fn new(base_path: String, base_folder: String) -> (server: FileServer)
        ensures
            server.base_path() == rooted(base_path@),
            server.base_folder() == base_folder@,
    {
        let rooted_path = if base_path.as_str().unicode_len() > 0 && base_path.as_str().get_char(0)
            == '/' {
            base_path
        } else {
            String::from_str("/").concat(base_path.as_str())
        };
        FileServer { base_folder, base_path: rooted_path }
    }

    /// The file that answers `request`.
    pub fn file_system_path(&self, request: &HttpRequest) -> (file: Option<String>)
        ensures
            match file {
                Some(name) => self.file_for(request.path@) == Some(name@),
                None => self.file_for(request.path@) is None,
            },
    {
        let skipped = self.base_path.as_str().unicode_len();
        let length = request.path.as_str().unicode_len();
        if length < skipped {
            return None;
        }
        let sub_path = request.path.as_str().substring_char(skipped, length);
        assert(sub_path@ =~= request.path@.skip(skipped as int));
        let mut name = self.base_folder.clone();
        name.append("/");
        name.append(sub_path);
        Some(name)
    }

    /// The response for what reading the file gave.
    pub fn respond(contents: Option<Vec<u8>>) -> (response: HttpResponse)
        ensures
            response@ == file_response(
                match contents {
                    Some(bytes) => Some(bytes@),
                    None => None,
                },
            ),
    {
        match contents {
            Some(bytes) => HttpResponse::default().with_byte_content(bytes, HttpContentType::TEXTPLAIN),
            None => HttpResponse::default().not_found(),
        }
    }

    /// Answers `request` with the file that `read` reads for it.
    pub fn handle<R: Fn(String) -> Option<Vec<u8>>>(&self, request: HttpRequest, read: &R) -> (response:
        HttpResponse)
        requires
            forall|name: String| call_requires(*read, (name,)),
        ensures
            self.answers(read, request, response),
    {
        match self.file_system_path(&request) {
            Some(name) => {
                let ghost asked = name;
                let contents = read(name);
                let response = FileServer::respond(contents);
                proof {
                    assert(call_ensures(*read, (asked,), contents));
                }
                response
            },
            None => HttpResponse::default().not_found(),
        }
    }
}

} // verus!
