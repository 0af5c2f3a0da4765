//! The decisions of the server loop: which action a parsed request calls for,
//! the exact responses the handlers produce, the page-template substitution,
//! and the username read from a cookie. The caller performs the I/O around
//! these: reading files, writing sockets, and waking listeners.
use vstd::prelude::*;
use vstd::string::StrSliceExecFns;
use vstd::string::StringExecFns;

use crate::http::lemma_upsert_absent;
use crate::http::HttpResponse;
use crate::http::ReqModel;
use crate::http::HttpRequest;
use crate::strutil::dec_str;
use crate::strutil::dec_string;
use crate::strutil::extract;
use crate::strutil::split_on;
use crate::strutil::starts_with;
use crate::strutil::str_eq;
use crate::strutil::str_starts_with;
use crate::strutil::split_string;

verus! {

/// The ghost shape of a routing decision.
pub enum ActionModel {
    ServeIndex,
    ServeChat,
    RegisterListener,
    ServeStatic(Seq<char>),
    Login,
    PostMessage,
    NotFound,
}

/// What a request calls for: serve a page, register the connection as a
/// listener, accept a login or a posted message, or answer 404.
#[derive(Debug, PartialEq, Eq)]
pub enum RouteAction {
    /// `GET /`: serve the index page.
    ServeIndex,
    /// `GET /chat`: serve the chat page.
    ServeChat,
    /// `GET /new-message`: hold the connection as a long-poll listener.
    RegisterListener,
    /// `GET /static/<file>`: serve the named static file.
    ServeStatic(String),
    /// `POST /login`: answer with the redirect that sets the cookie.
    Login,
    /// `POST /message`: deliver the posted message to the listeners.
    PostMessage,
    /// Anything else: answer 404 with an empty body.
    NotFound,
}

impl View for RouteAction {
    type V = ActionModel;

    open spec fn view(&self) -> ActionModel {
        match self {
            RouteAction::ServeIndex => ActionModel::ServeIndex,
            RouteAction::ServeChat => ActionModel::ServeChat,
            RouteAction::RegisterListener => ActionModel::RegisterListener,
            RouteAction::ServeStatic(f) => ActionModel::ServeStatic(f@),
            RouteAction::Login => ActionModel::Login,
            RouteAction::PostMessage => ActionModel::PostMessage,
            RouteAction::NotFound => ActionModel::NotFound,
        }
    }
}

/// The routing rule: dispatch on the method and the resource path.
pub open spec fn spec_route(r: ReqModel) -> ActionModel {
    if r.method == "GET"@ {
        if r.resource == "/"@ {
            ActionModel::ServeIndex
        } else if r.resource == "/chat"@ {
            ActionModel::ServeChat
        } else if r.resource == "/new-message"@ {
            ActionModel::RegisterListener
        } else if starts_with(r.resource, "/static/"@) {
            ActionModel::ServeStatic(r.resource.skip("/static/"@.len() as int))
        } else {
            ActionModel::NotFound
        }
    } else if r.method == "POST"@ {
        if r.resource == "/login"@ {
            ActionModel::Login
        } else if r.resource == "/message"@ {
            ActionModel::PostMessage
        } else {
            ActionModel::NotFound
        }
    } else {
        ActionModel::NotFound
    }
}

/// Decide what `req` calls for.
pub fn route_request(req: &HttpRequest) -> (a: RouteAction)
    ensures
        a@ == spec_route(req@),
{
    if str_eq(req.method.as_str(), "GET") {
        if str_eq(req.resource.as_str(), "/") {
            RouteAction::ServeIndex
        } else if str_eq(req.resource.as_str(), "/chat") {
            RouteAction::ServeChat
        } else if str_eq(req.resource.as_str(), "/new-message") {
            RouteAction::RegisterListener
        } else if str_starts_with(req.resource.as_str(), "/static/") {
            let plen = "/static/".unicode_len();
            let rlen = req.resource.as_str().unicode_len();
            let file = extract(req.resource.as_str(), plen, rlen);
            proof {
                assert(file@ =~= req@.resource.skip("/static/"@.len() as int));
            }
            RouteAction::ServeStatic(file)
        } else {
            RouteAction::NotFound
        }
    } else if str_eq(req.method.as_str(), "POST") {
        if str_eq(req.resource.as_str(), "/login") {
            RouteAction::Login
        } else if str_eq(req.resource.as_str(), "/message") {
            RouteAction::PostMessage
        } else {
            RouteAction::NotFound
        }
    } else {
        RouteAction::NotFound
    }
}

/// The template marker a page's room name stands in for.
pub open spec fn marker() -> Seq<char> {
    seq!['{', '{', '}', '}']
}

/// The pieces of `ps` from position `i` on, joined.
pub open spec fn joined(ps: Seq<Seq<char>>, i: int) -> Seq<char>
    decreases ps.len() - i,
{
    if i < 0 || i >= ps.len() {
        Seq::empty()
    } else {
        ps[i] + joined(ps, i + 1)
    }
}

/// A page with the room name substituted: the first `{{}}` marker becomes the
/// room name, later markers are dropped, and a page without a marker gets the
/// room name appended.
pub open spec fn rendered_page(content: Seq<char>, room: Seq<char>) -> Seq<char> {
    let ps = split_on(content, marker());
    ps[0] + room + joined(ps, 1)
}

/// Substitute the room name into a page template.
pub fn render_page(content: &str, room_name: &str) -> (r: String)
    ensures
        r@ == rendered_page(content@, room_name@),
{
    proof {
        reveal_strlit("{{}}");
        assert("{{}}"@ =~= marker());
    }
    let parts = split_string(content, "{{}}");
    let ghost ps = split_on(content@, marker());
    proof {
        assert(ps.len() >= 1);
        assert(parts@.len() == parts.deep_view().len());
    }
    let mut out = String::new();
    proof {
        assert(parts.deep_view()[0] == ps[0]);
    }
    out.append(parts[0].as_str());
    out.append(room_name);
    proof {
        assert(out@ =~= ps[0] + room_name@);
    }
    let ghost pre = out@;
    let n = parts.len();
    let mut i: usize = 1;
    while i < n
        invariant
            1 <= i <= n,
            n == parts@.len(),
            ps == parts.deep_view(),
            out@ + joined(ps, i as int) == pre + joined(ps, 1),
        decreases n - i,
    {
        let ghost outbefore = out@;
        proof {
            assert(ps[i as int] == parts.deep_view()[i as int]);
        }
        out.append(parts[i].as_str());
        proof {
            assert(out@ + joined(ps, i + 1) =~= outbefore + joined(ps, i as int));
        }
        i = i + 1;
    }
    proof {
        assert(out@ =~= pre + joined(ps, 1));
        assert(out@ =~= rendered_page(content@, room_name@));
    }
    out
}

/// The username a cookie of the shape `name=value` carries: the piece between
/// the first `=` and the second, or the end.
pub open spec fn cookie_user(cookie: Seq<char>) -> Option<Seq<char>> {
    let ps = split_on(cookie, seq!['=']);
    if ps.len() >= 2 {
        Some(ps[1])
    } else {
        None
    }
}

/// Read the username out of a cookie value.
pub fn cookie_username(cookie: &str) -> (r: Option<String>)
    ensures
        match r {
            Some(u) => cookie_user(cookie@) == Some(u@),
            None => cookie_user(cookie@) is None,
        },
{
    proof {
        reveal_strlit("=");
        assert("="@ =~= seq!['=']);
    }
    let ps = split_string(cookie, "=");
    if ps.len() >= 2 {
        let u = ps[1].clone();
        proof {
            assert(ps.deep_view()[1] == u@);
        }
        Some(u)
    } else {
        None
    }
}

/// The response serving a rendered page: 200 with the page as an HTML body
/// and its byte length declared.
pub fn page_response(content: &str) -> (r: HttpResponse)
    ensures
        r@.http_version == "HTTP/1.1"@,
        r@.status_code == 200,
        r@.status_message == "OK"@,
        r@.headers == seq![
            ("Content-Length"@, dec_str(content.len() as nat)),
            ("Content-Type"@, "text/html"@),
        ],
        r@.body == Some(content@),
{
    let clen = dec_string(content.len() as u64);
    let b = HttpResponse::builder()
        .http_version("HTTP/1.1")
        .status_code(200)
        .status_message("OK")
        .add_header("Content-Length", clen.as_str())
        .add_header("Content-Type", "text/html")
        .body(content);
    proof {
        reveal_strlit("Content-Length");
        reveal_strlit("Content-Type");
        lemma_upsert_absent(Seq::empty(), "Content-Length"@, clen@);
        assert("Content-Type"@.len() != "Content-Length"@.len());
        lemma_upsert_absent(
            Seq::empty().push(("Content-Length"@, clen@)),
            "Content-Type"@,
            "text/html"@,
        );
        assert(b@.headers =~= seq![
            ("Content-Length"@, dec_str(content.len() as nat)),
            ("Content-Type"@, "text/html"@),
        ]);
    }
    b.build()
}

/// The response serving a static file: 200 with the resolved MIME type and
/// the byte length declared.
pub fn static_response(content: &str, mime: &str) -> (r: HttpResponse)
    ensures
        r@.http_version == "HTTP/1.1"@,
        r@.status_code == 200,
        r@.status_message == "OK"@,
        r@.headers == seq![
            ("Content-Type"@, mime@),
            ("Content-Length"@, dec_str(content.len() as nat)),
        ],
        r@.body == Some(content@),
{
    let clen = dec_string(content.len() as u64);
    let b = HttpResponse::builder()
        .http_version("HTTP/1.1")
        .status_code(200)
        .status_message("OK")
        .add_header("Content-Type", mime)
        .add_header("Content-Length", clen.as_str());
    proof {
        reveal_strlit("Content-Length");
        reveal_strlit("Content-Type");
        lemma_upsert_absent(Seq::empty(), "Content-Type"@, mime@);
        assert("Content-Length"@.len() != "Content-Type"@.len());
        lemma_upsert_absent(
            Seq::empty().push(("Content-Type"@, mime@)),
            "Content-Length"@,
            clen@,
        );
        assert(b@.headers =~= seq![
            ("Content-Type"@, mime@),
            ("Content-Length"@, dec_str(content.len() as nat)),
        ]);
    }
    b.body(content).build()
}

/// The response a long-poll listener is finally written: 200 with the
/// notification JSON as its body.
pub fn notification_response(json: &str) -> (r: HttpResponse)
    ensures
        r@.http_version == "HTTP/1.1"@,
        r@.status_code == 200,
        r@.status_message == "OK"@,
        r@.headers == seq![
            ("Content-Type"@, "application/json"@),
            ("Content-Length"@, dec_str(json.len() as nat)),
        ],
        r@.body == Some(json@),
{
    let clen = dec_string(json.len() as u64);
    let b = HttpResponse::builder()
        .http_version("HTTP/1.1")
        .status_code(200)
        .status_message("OK")
        .add_header("Content-Type", "application/json")
        .add_header("Content-Length", clen.as_str());
    proof {
        reveal_strlit("Content-Length");
        reveal_strlit("Content-Type");
        lemma_upsert_absent(Seq::empty(), "Content-Type"@, "application/json"@);
        assert("Content-Length"@.len() != "Content-Type"@.len());
        lemma_upsert_absent(
            Seq::empty().push(("Content-Type"@, "application/json"@)),
            "Content-Length"@,
            clen@,
        );
        assert(b@.headers =~= seq![
            ("Content-Type"@, "application/json"@),
            ("Content-Length"@, dec_str(json.len() as nat)),
        ]);
    }
    b.body(json).build()
}

/// The login answer: a 303 redirect to the chat page at the server's address,
/// with the raw posted form body echoed as the cookie.
pub fn login_response(address: &str, cookie: &str) -> (r: HttpResponse)
    ensures
        r@.http_version == "HTTP/1.1"@,
        r@.status_code == 303,
        r@.status_message == "See Other"@,
        r@.headers == seq![
            ("Content-Type"@, "text/html"@),
            ("Content-Length"@, "0"@),
            ("Location"@, "http://"@ + address@ + "/chat"@),
            ("Set-Cookie"@, cookie@),
        ],
        r@.body is None,
{
    let mut location = String::new();
    location.append("http://");
    location.append(address);
    location.append("/chat");
    let b = HttpResponse::builder()
        .http_version("HTTP/1.1")
        .status_code(303)
        .status_message("See Other")
        .add_header("Content-Type", "text/html")
        .add_header("Content-Length", "0")
        .add_header("Location", location.as_str())
        .add_cookie(cookie);
    proof {
        reveal_strlit("Content-Length");
        reveal_strlit("Content-Type");
        reveal_strlit("Location");
        reveal_strlit("Set-Cookie");
        assert(location@ =~= "http://"@ + address@ + "/chat"@);
        assert("Content-Type"@.len() == 12);
        assert("Content-Length"@.len() == 14);
        assert("Location"@.len() == 8);
        assert("Set-Cookie"@.len() == 10);
        let h1 = Seq::empty().push(("Content-Type"@, "text/html"@));
        let h2 = h1.push(("Content-Length"@, "0"@));
        let h3 = h2.push(("Location"@, location@));
        lemma_upsert_absent(Seq::empty(), "Content-Type"@, "text/html"@);
        lemma_upsert_absent(h1, "Content-Length"@, "0"@);
        lemma_upsert_absent(h2, "Location"@, location@);
        lemma_upsert_absent(h3, "Set-Cookie"@, cookie@);
        assert(b@.headers =~= seq![
            ("Content-Type"@, "text/html"@),
            ("Content-Length"@, "0"@),
            ("Location"@, "http://"@ + address@ + "/chat"@),
            ("Set-Cookie"@, cookie@),
        ]);
    }
    b.build()
}

/// The answer to a posted message: 200 with an empty body.
pub fn message_posted_response() -> (r: HttpResponse)
    ensures
        r@.http_version == "HTTP/1.1"@,
        r@.status_code == 200,
        r@.status_message == "OK"@,
        r@.headers == seq![("Content-Length"@, "0"@)],
        r@.body is None,
{
    let b = HttpResponse::builder()
        .http_version("HTTP/1.1")
        .status_code(200)
        .status_message("OK")
        .add_header("Content-Length", "0");
    proof {
        lemma_upsert_absent(Seq::empty(), "Content-Length"@, "0"@);
        assert(b@.headers =~= seq![("Content-Length"@, "0"@)]);
    }
    b.build()
}

/// The answer to anything unrouted: 404 with an empty body.
pub fn not_found_response() -> (r: HttpResponse)
    ensures
        r@.http_version == "HTTP/1.1"@,
        r@.status_code == 404,
        r@.status_message == "Not Found"@,
        r@.headers == seq![("Content-Length"@, "0"@)],
        r@.body is None,
{
    let b = HttpResponse::builder()
        .http_version("HTTP/1.1")
        .status_code(404)
        .status_message("Not Found")
        .add_header("Content-Length", "0");
    proof {
        lemma_upsert_absent(Seq::empty(), "Content-Length"@, "0"@);
        assert(b@.headers =~= seq![("Content-Length"@, "0"@)]);
    }
    b.build()
}

} // verus!
