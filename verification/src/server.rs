//! Routing and the pure part of the request handlers.
//!
//! The route table is an ordered list; the first entry whose method equals
//! the request's and whose path is a prefix of the target wins. A handler is
//! named by a capability-typed variant: read-only handlers share the
//! configuration, the read-write reload handler takes it exclusively. The
//! connection handling itself (sockets, locks, threads) lives outside; it
//! feeds these functions plain values and writes their responses back.
use vstd::prelude::*;

use vstd::string::StringSliceAdditionalSpecFns;

use crate::bytes::starts_with;
use crate::bytes::starts_with_exec;
use crate::config::appended_url;
use crate::config::get_config_url;
use crate::config::get_reload_url;
use crate::config::resolved_url;
use crate::config::Config;
use crate::encoding::decoded;
use crate::encoding::decode_bytes;
use crate::http::HttpMethod;
use crate::http::HttpRequest;
use crate::http::RequestModel;
use crate::response::HeaderModel;
use crate::response::HttpResponse;

verus! {

/// The read-only handlers: they see the configuration shared with other
/// readers.
#[derive(Debug, Clone, Copy, PartialEq, Eq, Structural)]
pub enum ReadHandler {
    /// Serve the raw configuration text (host) or point at the host (mirror).
    SendConfigFile,
    /// Serve the static info banner.
    Info,
    /// Resolve the target as a search string and redirect.
    Redirect,
}

/// The read-write handlers: they take the configuration exclusively.
#[derive(Debug, Clone, Copy, PartialEq, Eq, Structural)]
pub enum WriteHandler {
    /// Replace the rule set from the configuration source.
    ReloadConfig,
}

/// A handler reference together with the capability it needs.
#[derive(Debug, Clone, Copy, PartialEq, Eq, Structural)]
pub enum RequestHandlerFunc {
    ReadFunc(ReadHandler),
    WriteFunc(WriteHandler),
}

/// One route: a method, a path prefix, and the handler to run.
#[derive(Debug)]
pub struct RequestHandler {
    pub method: HttpMethod,
    pub path: Vec<u8>,
    pub f: RequestHandlerFunc,
}

/// The mathematical model of a route.
pub struct HandlerModel {
    pub method: HttpMethod,
    pub path: Seq<u8>,
    pub f: RequestHandlerFunc,
}

impl View for RequestHandler {
    type V = HandlerModel;

    open spec fn view(&self) -> HandlerModel {
        HandlerModel { method: self.method, path: self.path@, f: self.f }
    }
}

impl DeepView for RequestHandler {
    type V = HandlerModel;

    open spec fn deep_view(&self) -> HandlerModel {
        self.view()
    }
}

/// A route matches a request when the methods are equal and its path is a
/// prefix of the request target.
pub open spec fn handler_matches(h: HandlerModel, req: RequestModel) -> bool {
    h.method == req.method && starts_with(req.uri, h.path)
}

/// The index of the first route at or after `i` that matches, if any.
pub open spec fn first_route_from(hs: Seq<HandlerModel>, req: RequestModel, i: int) -> Option<int>
    recommends
        0 <= i <= hs.len(),
    decreases hs.len() - i when 0 <= i <= hs.len()
{
    if i >= hs.len() {
        None
    } else if handler_matches(hs[i], req) {
        Some(i)
    } else {
        first_route_from(hs, req, i + 1)
    }
}

/// The index of the first route that matches the request, if any.
pub open spec fn first_route(hs: Seq<HandlerModel>, req: RequestModel) -> Option<int> {
    first_route_from(hs, req, 0)
}

/// What `first_route_from` returns: the first matching route at or after
/// `from`, or the absence of any.
pub proof fn lemma_first_route_spec(hs: Seq<HandlerModel>, req: RequestModel, from: int)
    requires
        0 <= from <= hs.len(),
    ensures
        match first_route_from(hs, req, from) {
            Some(i) => from <= i < hs.len() && handler_matches(hs[i], req) && forall|j: int|
                from <= j < i ==> !handler_matches(hs[j], req),
            None => forall|j: int| from <= j < hs.len() ==> !handler_matches(hs[j], req),
        },
    decreases hs.len() - from,
{
    if from >= hs.len() {
    } else if handler_matches(hs[from], req) {
    } else {
        lemma_first_route_spec(hs, req, from + 1);
    }
}

/// A match at `i` with none before it is the first match.
proof fn lemma_first_route_unique(hs: Seq<HandlerModel>, req: RequestModel, i: int)
    requires
        0 <= i < hs.len(),
        handler_matches(hs[i], req),
        forall|j: int| 0 <= j < i ==> !handler_matches(hs[j], req),
    ensures
        first_route(hs, req) == Some(i),
{
    lemma_first_route_spec(hs, req, 0);
    match first_route(hs, req) {
        Some(k) => {
            if k < i {
                assert(!handler_matches(hs[k], req));
            } else if k > i {
                assert(!handler_matches(hs[i], req));
            }
        },
        None => {
            assert(!handler_matches(hs[i], req));
        },
    }
}

impl RequestHandler {
    /// Whether this route takes the request.
    pub fn matches_on(&self, request: &HttpRequest) -> (r: bool)
        ensures
            r == handler_matches(self@, request@),
    {
        let method_matches = match (self.method, request.get_method()) {
            (HttpMethod::Get, HttpMethod::Get) => true,
            (HttpMethod::Post, HttpMethod::Post) => true,
            _ => false,
        };
        method_matches && starts_with_exec(request.get_uri(), &self.path)
    }
}

/// The ordered route table.
#[derive(Debug)]
pub struct Router {
    pub handlers: Vec<RequestHandler>,
}

impl Router {
    /// The model of the route list.
    pub open spec fn routes(self) -> Seq<HandlerModel> {
        self.handlers.deep_view()
    }

    /// An empty route table.
    pub fn new() -> (r: Router)
        ensures
            r.routes() == Seq::<HandlerModel>::empty(),
    {
        let r = Router { handlers: Vec::new() };
        proof {
            assert(r.routes() =~= Seq::<HandlerModel>::empty());
        }
        r
    }

    /// Register a route at the end of the table: routes registered earlier
    /// keep priority.
    pub fn add_handler(&mut self, method: HttpMethod, path: Vec<u8>, f: RequestHandlerFunc)
        ensures
            final(self).routes() == old(self).routes().push(
                HandlerModel { method, path: path@, f },
            ),
    {
        let ghost before = self.handlers.deep_view();
        self.handlers.push(RequestHandler { method, path, f });
        proof {
            assert(self.handlers.deep_view() =~= before.push(self.handlers@.last()@));
        }
    }

    /// The handler of the first route that matches the request, if any.
    pub fn find_handler(&self, request: &HttpRequest) -> (r: Option<RequestHandlerFunc>)
        ensures
            match first_route(self.routes(), request@) {
                Some(i) => r == Some(self.routes()[i].f),
                None => r is None,
            },
    {
        let ghost hs = self.routes();
        proof {
            assert(forall|k: int|
                0 <= k < self.handlers@.len() ==> hs[k] == #[trigger] self.handlers@[k]@);
        }
        let n = self.handlers.len();
        let mut i: usize = 0;
        while i < n
            invariant
                n == self.handlers@.len(),
                hs == self.routes(),
                hs.len() == n,
                forall|k: int| 0 <= k < n ==> hs[k] == #[trigger] self.handlers@[k]@,
                i <= n,
                forall|j: int| 0 <= j < i ==> !handler_matches(hs[j], request@),
            decreases n - i,
        {
            if self.handlers[i].matches_on(request) {
                proof {
                    lemma_first_route_unique(hs, request@, i as int);
                }
                return Some(self.handlers[i].f);
            }
            i = i + 1;
        }
        proof {
            lemma_first_route_spec(hs, request@, 0);
            if first_route(hs, request@) is Some {
                let k = first_route(hs, request@)->Some_0;
                assert(!handler_matches(hs[k], request@));
            }
        }
        None
    }
}

/// The path prefix `/u/`.
pub open spec fn config_path() -> Seq<u8> {
    seq![0x2fu8, 0x75u8, 0x2fu8]
}

/// The path prefix `/r/`.
pub open spec fn reload_path() -> Seq<u8> {
    seq![0x2fu8, 0x72u8, 0x2fu8]
}

/// The path prefix `/i/`.
pub open spec fn info_path() -> Seq<u8> {
    seq![0x2fu8, 0x69u8, 0x2fu8]
}

/// The catch-all path prefix `/`.
pub open spec fn root_path() -> Seq<u8> {
    seq![0x2fu8]
}

/// The route table this service runs: the config text path, the reload
/// path, the info path, and the catch-all redirect, in that priority order,
/// all on GET.
pub open spec fn default_route_models() -> Seq<HandlerModel> {
    seq![
        HandlerModel {
            method: HttpMethod::Get,
            path: config_path(),
            f: RequestHandlerFunc::ReadFunc(ReadHandler::SendConfigFile),
        },
        HandlerModel {
            method: HttpMethod::Get,
            path: reload_path(),
            f: RequestHandlerFunc::WriteFunc(WriteHandler::ReloadConfig),
        },
        HandlerModel {
            method: HttpMethod::Get,
            path: info_path(),
            f: RequestHandlerFunc::ReadFunc(ReadHandler::Info),
        },
        HandlerModel {
            method: HttpMethod::Get,
            path: root_path(),
            f: RequestHandlerFunc::ReadFunc(ReadHandler::Redirect),
        },
    ]
}

/// Build the default route table.
pub fn default_routes() -> (r: Router)
    ensures
        r.routes() == default_route_models(),
{
    let mut router = Router::new();
    let mut p: Vec<u8> = Vec::new();
    p.push(0x2f);
    p.push(0x75);
    p.push(0x2f);
    proof {
        assert(p@ =~= config_path());
    }
    router.add_handler(
        HttpMethod::Get,
        p,
        RequestHandlerFunc::ReadFunc(ReadHandler::SendConfigFile),
    );
    let mut p: Vec<u8> = Vec::new();
    p.push(0x2f);
    p.push(0x72);
    p.push(0x2f);
    proof {
        assert(p@ =~= reload_path());
    }
    router.add_handler(
        HttpMethod::Get,
        p,
        RequestHandlerFunc::WriteFunc(WriteHandler::ReloadConfig),
    );
    let mut p: Vec<u8> = Vec::new();
    p.push(0x2f);
    p.push(0x69);
    p.push(0x2f);
    proof {
        assert(p@ =~= info_path());
    }
    router.add_handler(HttpMethod::Get, p, RequestHandlerFunc::ReadFunc(ReadHandler::Info));
    let mut p: Vec<u8> = Vec::new();
    p.push(0x2f);
    proof {
        assert(p@ =~= root_path());
    }
    router.add_handler(HttpMethod::Get, p, RequestHandlerFunc::ReadFunc(ReadHandler::Redirect));
    proof {
        assert(router.routes() =~= default_route_models());
    }
    router
}

/// Answer for the config text path. On the host the caller reads the
/// authoritative text fresh and it is served as-is, CORS-open; on a mirror
/// nothing is read and the caller is redirected to the host's config path.
pub fn send_config_file(config: &Config, host_text: Option<Vec<u8>>) -> (r: HttpResponse)
    requires
        host_text is Some <==> config.is_config_host,
    ensures
        config.is_config_host ==> r@.status == 200 && r@.headers == seq![
            HeaderModel { name: "Content-Type".spec_bytes(), value: "text/plain".spec_bytes() },
            HeaderModel {
                name: "Access-Control-Allow-Origin".spec_bytes(),
                value: "*".spec_bytes(),
            },
        ] && r@.body == host_text->Some_0@,
        !config.is_config_host ==> r@.status == 301 && r@.headers == seq![
            HeaderModel {
                name: "Location".spec_bytes(),
                value: appended_url(config.location@, config_path()),
            },
        ] && r@.body.len() == 0,
{
    match host_text {
        Some(text) => {
            let mut r = HttpResponse::new(200, text);
            r.add_header(lit_vec("Content-Type"), lit_vec("text/plain"));
            r.add_header(lit_vec("Access-Control-Allow-Origin"), lit_vec("*"));
            proof {
                assert(r@.headers =~= seq![
                    HeaderModel {
                        name: "Content-Type".spec_bytes(),
                        value: "text/plain".spec_bytes(),
                    },
                    HeaderModel {
                        name: "Access-Control-Allow-Origin".spec_bytes(),
                        value: "*".spec_bytes(),
                    },
                ]);
            }
            r
        },
        None => {
            let url = get_config_url(&config.location);
            let mut r = HttpResponse::new(301, Vec::new());
            r.add_header(lit_vec("Location"), url);
            proof {
                assert(r@.headers =~= seq![
                    HeaderModel {
                        name: "Location".spec_bytes(),
                        value: appended_url(config.location@, config_path()),
                    },
                ]);
            }
            r
        },
    }
}

/// Where a reload request must first be relayed: a mirror notifies the host
/// at its reload path before reloading itself (the relay is advisory); the
/// host relays nowhere.
pub fn reload_notify_url(config: &Config) -> (r: Option<Vec<u8>>)
    ensures
        config.is_config_host ==> r is None,
        !config.is_config_host ==> (r matches Some(u) && u@ == appended_url(
            config.location@,
            reload_path(),
        )),
{
    if config.is_config_host {
        None
    } else {
        Some(get_reload_url(&config.location))
    }
}

/// The success answer of the reload path.
pub fn reload_response() -> (r: HttpResponse)
    ensures
        r@.status == 200,
        r@.headers == seq![
            HeaderModel { name: "Content-Type".spec_bytes(), value: "text/plain".spec_bytes() },
        ],
        r@.body == "Reloaded configuration".spec_bytes(),
{
    let mut r = HttpResponse::new(200, lit_vec("Reloaded configuration"));
    r.add_header(lit_vec("Content-Type"), lit_vec("text/plain"));
    proof {
        assert(r@.headers =~= seq![
            HeaderModel { name: "Content-Type".spec_bytes(), value: "text/plain".spec_bytes() },
        ]);
    }
    r
}

/// The static info banner.
pub open spec fn info_banner() -> Seq<u8> {
    "WSH redirect service\n".spec_bytes()
}

/// Answer for the info path.
pub fn info_response() -> (r: HttpResponse)
    ensures
        r@.status == 200,
        r@.headers == seq![
            HeaderModel { name: "Content-Type".spec_bytes(), value: "text/plain".spec_bytes() },
        ],
        r@.body == info_banner(),
{
    let mut r = HttpResponse::new(200, lit_vec("WSH redirect service\n"));
    r.add_header(lit_vec("Content-Type"), lit_vec("text/plain"));
    proof {
        assert(r@.headers =~= seq![
            HeaderModel { name: "Content-Type".spec_bytes(), value: "text/plain".spec_bytes() },
        ]);
    }
    r
}

/// Answer for the catch-all path: the target without its leading slash is
/// percent-decoded, resolved against the rules, and answered as a redirect.
pub fn redirect_handler(req: &HttpRequest, config: &Config) -> (r: HttpResponse)
    requires
        req.wf(),
        config.wf(),
        config.sites@.len() > 0,
    ensures
        r@.status == 301,
        r@.headers == seq![
            HeaderModel {
                name: "Location".spec_bytes(),
                value: resolved_url(config.rules(), decoded(req@.uri.drop_first())),
            },
        ],
        r@.body.len() == 0,
{
    let raw = req.uri_without_starting_slash();
    let search = decode_bytes(&raw);
    let url = config.find_redirect(&search);
    let mut r = HttpResponse::new(301, Vec::new());
    r.add_header(lit_vec("Location"), url);
    proof {
        assert(r@.headers =~= seq![
            HeaderModel {
                name: "Location".spec_bytes(),
                value: resolved_url(config.rules(), decoded(req@.uri.drop_first())),
            },
        ]);
    }
    r
}

/// The not-found answer for requests no route takes.
pub fn not_found_response() -> (r: HttpResponse)
    ensures
        r@.status == 404,
        r@.headers == Seq::<HeaderModel>::empty(),
        r@.body == "Not found".spec_bytes(),
{
    let r = HttpResponse::new(404, lit_vec("Not found"));
    proof {
        assert(r@.headers =~= Seq::<HeaderModel>::empty());
    }
    r
}

/// The failure answer carrying an error's short description.
pub fn error_response(message: Vec<u8>) -> (r: HttpResponse)
    ensures
        r@.status == 500,
        r@.headers == Seq::<HeaderModel>::empty(),
        r@.body == message@,
{
    let r = HttpResponse::new(500, message);
    proof {
        assert(r@.headers =~= Seq::<HeaderModel>::empty());
    }
    r
}

/// The bytes of an ASCII-capable string literal.
fn lit_vec(s: &str) -> (r: Vec<u8>)
    ensures
        r@ == s.spec_bytes(),
{
    vstd::string::StrSliceExecFns::as_bytes_vec(s)
}

} // verus!
