//! The text of the request that the engine sends for a page.

use vstd::prelude::*;

verus! {

/// The request for `path` on `host`: the request line, then the `Host`,
/// `Accept` and `Connection` headers, each ended by a line feed, then an
/// empty line.
pub open spec fn request_text(host: Seq<char>, path: Seq<char>) -> Seq<char> {
    "GET /"@ + path + " HTTP/1.1\n"@ + "Host: "@ + host + "\n"@ + "Accept: text/html\n"@
        + "Connection: close\n"@ + "\n"@
}

/// A client that asks a host for a page.
#[derive(Debug, Clone, Copy, PartialEq, Eq, Structural)]
pub struct HttpClient {}

impl HttpClient {
    pub fn new() -> (r: Self)
        ensures
            r == (HttpClient {  }),
    {
        HttpClient {  }
    }

    /// Composes the request for `path` on `host`. The path is taken without
    /// its leading slash.
    pub fn request(&self, host: &str, path: &str) -> (r: String)
        ensures
            r@ == request_text(host@, path@),
    {
        let mut request = String::from_str("GET /");
        request.append(path);
        request.append(" HTTP/1.1\n");
        request.append("Host: ");
        request.append(host);
        request.push('\n');
        request.append("Accept: text/html\n");
        request.append("Connection: close\n");
        request.push('\n');
        proof {
            reveal_strlit("\n");
            assert("\n"@ == seq!['\n']);
            assert(request@ == request_text(host@, path@));
        }
        request
    }
}

} // verus!
