//! The minimal request parser: only the first line of a request is read and
//! parsed into method, target and version. The scan over the growing read
//! buffer is a pure step function here; the reads themselves happen outside.
use vstd::prelude::*;

use crate::bytes::contains_seq;
use crate::bytes::find_pat;
use crate::bytes::find_first;
use crate::bytes::lemma_contains_iff_find;
use crate::bytes::lemma_find_pat_spec;

verus! {

/// The request methods the service accepts.
#[derive(Debug, Clone, Copy, PartialEq, Eq, PartialOrd, Ord, Structural)]
pub enum HttpMethod {
    Get,
    Post,
}

/// Why a request could not be parsed.
#[derive(Debug, Clone, Copy, PartialEq, Eq, Structural)]
pub enum HttpParseError {
    /// The first line did not fit under the buffer ceiling.
    UriTooLong,
    /// Reading from the connection failed.
    TcpStreamError,
    /// The first line does not have exactly three tokens.
    NotValidHttp,
    /// The method token is neither `GET` nor `POST`.
    UnsupportedMethod,
    /// The target token does not start with `/`.
    MalformedTarget,
}

/// The token `GET`.
pub open spec fn get_token() -> Seq<u8> {
    seq![0x47u8, 0x45u8, 0x54u8]
}

/// The token `POST`.
pub open spec fn post_token() -> Seq<u8> {
    seq![0x50u8, 0x4fu8, 0x53u8, 0x54u8]
}

impl HttpMethod {
    /// Read a method token. Accepts exactly `GET` and `POST`.
    pub fn from_str(method_str: &Vec<u8>) -> (r: Result<HttpMethod, HttpParseError>)
        ensures
            r == Ok::<HttpMethod, HttpParseError>(HttpMethod::Get) <==> method_str@
                == get_token(),
            r == Ok::<HttpMethod, HttpParseError>(HttpMethod::Post) <==> method_str@
                == post_token(),
            r is Err ==> r == Err::<HttpMethod, HttpParseError>(
                HttpParseError::UnsupportedMethod,
            ),
    {
        if method_str.len() == 3 && method_str[0] == 0x47 && method_str[1] == 0x45
            && method_str[2] == 0x54 {
            proof {
                assert(method_str@ =~= get_token());
            }
            Ok(HttpMethod::Get)
        } else if method_str.len() == 4 && method_str[0] == 0x50 && method_str[1] == 0x4f
            && method_str[2] == 0x53 && method_str[3] == 0x54 {
            proof {
                assert(method_str@ =~= post_token());
            }
            Ok(HttpMethod::Post)
        } else {
            proof {
                if method_str@ == get_token() {
                    assert(method_str@.len() == 3 && method_str@[0] == 0x47 && method_str@[1]
                        == 0x45 && method_str@[2] == 0x54);
                }
                if method_str@ == post_token() {
                    assert(method_str@.len() == 4 && method_str@[0] == 0x50 && method_str@[1]
                        == 0x4f && method_str@[2] == 0x53 && method_str@[3] == 0x54);
                }
            }
            Err(HttpParseError::UnsupportedMethod)
        }
    }

    /// The method's name on the wire.
    pub fn name(&self) -> (r: &'static str)
        ensures
            *self == HttpMethod::Get ==> r@ == "GET"@,
            *self == HttpMethod::Post ==> r@ == "POST"@,
    {
        match self {
            HttpMethod::Get => "GET",
            HttpMethod::Post => "POST",
        }
    }
}

impl HttpParseError {
    /// A short description, used as the body of an error response.
    pub fn message(&self) -> (r: &'static str)
        ensures
            *self == HttpParseError::UriTooLong ==> r@ == "Uri is too long"@,
            *self == HttpParseError::TcpStreamError ==> r@ == "Error reading the stream"@,
            *self == HttpParseError::NotValidHttp ==> r@
                == "Error parsing the http request - it does not seem to be valid"@,
            *self == HttpParseError::UnsupportedMethod ==> r@ == "Unsupported method"@,
            *self == HttpParseError::MalformedTarget ==> r@ == "The uri must start with a /"@,
    {
        match self {
            HttpParseError::UriTooLong => "Uri is too long",
            HttpParseError::TcpStreamError => "Error reading the stream",
            HttpParseError::NotValidHttp => "Error parsing the http request - it does not seem to be valid",
            HttpParseError::UnsupportedMethod => "Unsupported method",
            HttpParseError::MalformedTarget => "The uri must start with a /",
        }
    }
}

/// An ASCII whitespace byte, as trimming understands it.
pub open spec fn is_ascii_ws(b: u8) -> bool {
    b == 0x20 || b == 0x09 || b == 0x0a || b == 0x0b || b == 0x0c || b == 0x0d
}

/// `s` with leading whitespace removed.
pub open spec fn trim_start(s: Seq<u8>) -> Seq<u8>
    decreases s.len(),
{
    if s.len() > 0 && is_ascii_ws(s[0]) {
        trim_start(s.drop_first())
    } else {
        s
    }
}

/// `s` with trailing whitespace removed.
pub open spec fn trim_end(s: Seq<u8>) -> Seq<u8>
    decreases s.len(),
{
    if s.len() > 0 && is_ascii_ws(s.last()) {
        trim_end(s.drop_last())
    } else {
        s
    }
}

/// `s` with whitespace removed at both ends.
pub open spec fn trimmed(s: Seq<u8>) -> Seq<u8> {
    trim_end(trim_start(s))
}

proof fn lemma_trim_start_skip(s: Seq<u8>, i: int)
    requires
        0 <= i <= s.len(),
        forall|j: int| 0 <= j < i ==> is_ascii_ws(s[j]),
        i < s.len() ==> !is_ascii_ws(s[i]),
    ensures
        trim_start(s) == s.skip(i),
    decreases i,
{
    if i == 0 {
        assert(s.skip(0) =~= s);
    } else {
        assert(is_ascii_ws(s[0]));
        lemma_trim_start_skip(s.drop_first(), i - 1);
        assert(s.drop_first().skip(i - 1) =~= s.skip(i));
    }
}

proof fn lemma_trim_end_take(s: Seq<u8>, e: int)
    requires
        0 <= e <= s.len(),
        forall|j: int| e <= j < s.len() ==> is_ascii_ws(s[j]),
        e > 0 ==> !is_ascii_ws(s[e - 1]),
    ensures
        trim_end(s) == s.take(e),
    decreases s.len(),
{
    if e == s.len() {
        if s.len() > 0 {
            assert(!is_ascii_ws(s.last()));
        }
        assert(s.take(e) =~= s);
    } else {
        assert(is_ascii_ws(s.last()));
        lemma_trim_end_take(s.drop_last(), e);
        assert(s.drop_last().take(e) =~= s.take(e));
    }
}

fn is_ws_exec(b: u8) -> (r: bool)
    ensures
        r == is_ascii_ws(b),
{
    b == 0x20 || b == 0x09 || b == 0x0a || b == 0x0b || b == 0x0c || b == 0x0d
}

/// A copy of `s` with ASCII whitespace removed at both ends.
pub fn trim_bytes(s: &Vec<u8>) -> (r: Vec<u8>)
    ensures
        r@ == trimmed(s@),
{
    let mut start: usize = 0;
    while start < s.len() && is_ws_exec(s[start])
        invariant
            start <= s.len(),
            forall|j: int| 0 <= j < start ==> is_ascii_ws(s@[j]),
        decreases s.len() - start,
    {
        start = start + 1;
    }
    let mut end: usize = s.len();
    while end > start && is_ws_exec(s[end - 1])
        invariant
            start <= end <= s.len(),
            forall|j: int| end <= j < s.len() ==> is_ascii_ws(s@[j]),
        decreases end,
    {
        end = end - 1;
    }
    proof {
        lemma_trim_start_skip(s@, start as int);
        lemma_trim_end_take(s@.skip(start as int), end - start);
    }
    let mut r: Vec<u8> = Vec::new();
    let mut k: usize = start;
    while k < end
        invariant
            start <= k <= end <= s.len(),
            r@ =~= s@.subrange(start as int, k as int),
        decreases end - k,
    {
        r.push(s[k]);
        proof {
            assert(r@ =~= s@.subrange(start as int, k + 1));
        }
        k = k + 1;
    }
    proof {
        assert(r@ =~= s@.skip(start as int).take(end - start));
    }
    r
}

/// The tokens of `s` split on every single space: `n` spaces give `n + 1`
/// tokens, empty tokens included.
pub open spec fn split_spaces(s: Seq<u8>) -> Seq<Seq<u8>>
    decreases s.len(),
{
    if s.len() == 0 {
        seq![Seq::<u8>::empty()]
    } else if s[0] == 0x20 {
        seq![Seq::<u8>::empty()] + split_spaces(s.drop_first())
    } else {
        let rest = split_spaces(s.drop_first());
        seq![seq![s[0]] + rest[0]] + rest.drop_first()
    }
}

/// Splitting always yields at least one token.
pub proof fn lemma_split_nonempty(s: Seq<u8>)
    ensures
        split_spaces(s).len() >= 1,
    decreases s.len(),
{
    if s.len() == 0 {
    } else {
        lemma_split_nonempty(s.drop_first());
    }
}

/// Split `s` on every single space.
pub fn split_spaces_exec(s: &Vec<u8>) -> (r: Vec<Vec<u8>>)
    ensures
        r.deep_view() == split_spaces(s@),
{
    let mut tokens: Vec<Vec<u8>> = Vec::new();
    let mut cur: Vec<u8> = Vec::new();
    let mut i: usize = 0;
    proof {
        assert(s@.skip(0) =~= s@);
        lemma_split_nonempty(s@);
        assert(tokens.deep_view() =~= Seq::<Seq<u8>>::empty());
        assert(tokens.deep_view() + seq![cur@ + split_spaces(s@)[0]] + split_spaces(
            s@,
        ).drop_first() =~~= split_spaces(s@));
    }
    while i < s.len()
        invariant
            i <= s.len(),
            split_spaces(s@) == tokens.deep_view() + seq![cur@ + split_spaces(s@.skip(i as int))[0]]
                + split_spaces(s@.skip(i as int)).drop_first(),
        decreases s.len() - i,
    {
        let ghost tail = s@.skip(i as int);
        let ghost toks0 = tokens.deep_view();
        let ghost cur0 = cur@;
        let ghost rest = split_spaces(s@.skip(i + 1));
        proof {
            assert(tail.len() > 0);
            assert(tail.drop_first() =~= s@.skip(i + 1));
            lemma_split_nonempty(s@.skip(i + 1));
        }
        let b = s[i];
        proof {
            assert(tail[0] == b);
        }
        if b == 0x20 {
            tokens.push(cur);
            cur = Vec::new();
            proof {
                assert(tokens.deep_view() =~~= toks0.push(cur0));
                assert(split_spaces(tail) == seq![Seq::<u8>::empty()] + rest);
                assert(split_spaces(tail)[0] =~= Seq::<u8>::empty());
                assert(split_spaces(tail).drop_first() =~= rest);
                assert(cur0 + split_spaces(tail)[0] =~= cur0);
                assert(toks0 + seq![cur0 + split_spaces(tail)[0]] + split_spaces(
                    tail,
                ).drop_first() =~~= toks0 + seq![cur0] + rest);
                assert(toks0.push(cur0) + seq![cur@ + rest[0]] + rest.drop_first() =~~= toks0
                    + seq![cur0] + rest);
            }
        } else {
            cur.push(b);
            proof {
                assert(cur@ =~= cur0.push(b));
                assert(split_spaces(tail) == seq![seq![b] + rest[0]] + rest.drop_first());
                assert(split_spaces(tail)[0] =~= seq![b] + rest[0]);
                assert(split_spaces(tail).drop_first() =~= rest.drop_first());
                assert(cur0 + (seq![b] + rest[0]) =~= cur@ + rest[0]);
                assert(toks0 + seq![cur0 + split_spaces(tail)[0]] + split_spaces(
                    tail,
                ).drop_first() =~~= toks0 + seq![cur@ + rest[0]] + rest.drop_first());
            }
        }
        i = i + 1;
    }
    let ghost toks_end = tokens.deep_view();
    let ghost cur_end = cur@;
    tokens.push(cur);
    proof {
        let tail = s@.skip(s@.len() as int);
        assert(tail =~= Seq::<u8>::empty());
        assert(split_spaces(tail) == seq![Seq::<u8>::empty()]);
        assert(split_spaces(tail)[0] =~= Seq::<u8>::empty());
        assert(cur_end + split_spaces(tail)[0] =~= cur_end);
        assert(split_spaces(tail).drop_first() =~= Seq::<Seq<u8>>::empty());
        assert(tokens.deep_view() =~~= toks_end.push(cur_end));
        assert(toks_end + seq![cur_end + split_spaces(tail)[0]] + split_spaces(
            tail,
        ).drop_first() =~~= toks_end.push(cur_end));
    }
    tokens
}

/// `s` with every `+` rewritten to `%20`, matching form-style space
/// encoding in targets.
pub open spec fn plus_expanded(s: Seq<u8>) -> Seq<u8>
    decreases s.len(),
{
    if s.len() == 0 {
        Seq::empty()
    } else if s[0] == 0x2b {
        seq![0x25u8, 0x32u8, 0x30u8] + plus_expanded(s.drop_first())
    } else {
        seq![s[0]] + plus_expanded(s.drop_first())
    }
}

/// A copy of `s` with every `+` rewritten to `%20`.
pub fn expand_plus(s: &Vec<u8>) -> (r: Vec<u8>)
    ensures
        r@ == plus_expanded(s@),
{
    let mut r: Vec<u8> = Vec::new();
    let mut i: usize = 0;
    proof {
        assert(s@.skip(0) =~= s@);
    }
    while i < s.len()
        invariant
            i <= s.len(),
            plus_expanded(s@) == r@ + plus_expanded(s@.skip(i as int)),
        decreases s.len() - i,
    {
        let b = s[i];
        let ghost r0 = r@;
        let ghost tail = s@.skip(i as int);
        proof {
            assert(tail.drop_first() =~= s@.skip(i + 1));
        }
        if b == 0x2b {
            r.push(0x25);
            r.push(0x32);
            r.push(0x30);
            proof {
                assert(plus_expanded(tail) == seq![0x25u8, 0x32u8, 0x30u8] + plus_expanded(
                    s@.skip(i + 1),
                ));
                assert(r@ =~= r0 + seq![0x25u8, 0x32u8, 0x30u8]);
                assert(r@ + plus_expanded(s@.skip(i + 1)) =~= r0 + plus_expanded(tail));
            }
        } else {
            r.push(b);
            proof {
                assert(plus_expanded(tail) == seq![b] + plus_expanded(s@.skip(i + 1)));
                assert(r@ =~= r0 + seq![b]);
                assert(r@ + plus_expanded(s@.skip(i + 1)) =~= r0 + plus_expanded(tail));
            }
        }
        i = i + 1;
    }
    proof {
        assert(s@.skip(s@.len() as int) =~= Seq::<u8>::empty());
        assert(r@ + plus_expanded(s@.skip(s@.len() as int)) =~= r@);
    }
    r
}

/// One parsed request: method, target and version, immutable once parsed.
#[derive(Debug, Clone)]
pub struct HttpRequest {
    pub method: HttpMethod,
    pub uri: Vec<u8>,
    pub version: Vec<u8>,
}

/// The mathematical model of a parsed request.
pub struct RequestModel {
    pub method: HttpMethod,
    pub uri: Seq<u8>,
    pub version: Seq<u8>,
}

impl View for HttpRequest {
    type V = RequestModel;

    open spec fn view(&self) -> RequestModel {
        RequestModel { method: self.method, uri: self.uri@, version: self.version@ }
    }
}

/// What parsing the first request line yields: exactly three space-split
/// tokens after trimming, a supported method, and a target that (after the
/// `+` rewrite) starts with `/`.
pub open spec fn parsed_request(line: Seq<u8>) -> Result<RequestModel, HttpParseError> {
    let parts = split_spaces(trimmed(line));
    if parts.len() != 3 {
        Err(HttpParseError::NotValidHttp)
    } else if parts[0] != get_token() && parts[0] != post_token() {
        Err(HttpParseError::UnsupportedMethod)
    } else {
        let uri = plus_expanded(parts[1]);
        if !(uri.len() > 0 && uri[0] == 0x2f) {
            Err(HttpParseError::MalformedTarget)
        } else {
            Ok(
                RequestModel {
                    method: if parts[0] == get_token() {
                        HttpMethod::Get
                    } else {
                        HttpMethod::Post
                    },
                    uri,
                    version: parts[2],
                },
            )
        }
    }
}

impl HttpRequest {
    /// The target always carries its leading slash.
    pub open spec fn wf(self) -> bool {
        self.uri@.len() > 0 && self.uri@[0] == 0x2f
    }

    /// Parse the first line of a request, as `parsed_request` describes.
    pub fn parse_from_string(first_line: &Vec<u8>) -> (r: Result<HttpRequest, HttpParseError>)
        ensures
            r matches Ok(req) ==> parsed_request(first_line@) == Ok::<
                RequestModel,
                HttpParseError,
            >(req@) && req.wf(),
            r matches Err(e) ==> parsed_request(first_line@) == Err::<
                RequestModel,
                HttpParseError,
            >(e),
    {
        let line = trim_bytes(first_line);
        let parts = split_spaces_exec(&line);
        let ghost deep = parts.deep_view();
        proof {
            assert(forall|k: int| 0 <= k < parts@.len() ==> deep[k] == #[trigger] parts@[k]@);
        }
        if parts.len() != 3 {
            return Err(HttpParseError::NotValidHttp);
        }
        let method = match HttpMethod::from_str(&parts[0]) {
            Ok(m) => m,
            Err(e) => {
                return Err(e);
            },
        };
        let uri = expand_plus(&parts[1]);
        if !(uri.len() > 0 && uri[0] == 0x2f) {
            return Err(HttpParseError::MalformedTarget);
        }
        let version = parts[2].clone();
        Ok(HttpRequest { method, uri, version })
    }

    /// The target with its leading slash removed.
    pub fn uri_without_starting_slash(&self) -> (r: Vec<u8>)
        requires
            self.wf(),
        ensures
            r@ == self.uri@.drop_first(),
    {
        let mut r: Vec<u8> = Vec::new();
        let mut k: usize = 1;
        while k < self.uri.len()
            invariant
                self.uri@.len() > 0,
                1 <= k <= self.uri@.len(),
                r@ =~= self.uri@.subrange(1, k as int),
            decreases self.uri.len() - k,
        {
            r.push(self.uri[k]);
            proof {
                assert(r@ =~= self.uri@.subrange(1, k + 1));
            }
            k = k + 1;
        }
        proof {
            assert(r@ =~= self.uri@.drop_first());
        }
        r
    }

    /// The full target, leading slash included.
    pub fn get_uri(&self) -> (r: &Vec<u8>)
        ensures
            r@ == self.uri@,
    {
        &self.uri
    }

    /// The protocol version token.
    pub fn get_version(&self) -> (r: &Vec<u8>)
        ensures
            r@ == self.version@,
    {
        &self.version
    }

    /// The request method.
    pub fn get_method(&self) -> (r: HttpMethod)
        ensures
            r == self.method,
    {
        self.method
    }
}

/// The outcome of scanning the accumulated read buffer for the end of the
/// first line.
pub enum LineScan {
    /// A newline was found; the bytes before it are the first line.
    Complete(Vec<u8>),
    /// No newline yet and the buffer is still under the ceiling: read on.
    NeedMore,
    /// No newline within the ceiling: the request line is too long.
    TooLarge,
}

/// One decision step of reading the first request line: scan the bytes read
/// so far. A buffer that reaches the ceiling without a newline is rejected,
/// so the read loop always terminates within the ceiling.
pub fn scan_request_line(buf: &Vec<u8>, ceiling: usize) -> (r: LineScan)
    ensures
        match r {
            LineScan::Complete(line) => find_pat(buf@, seq![0x0au8], 0) == Some(
                line@.len() as int,
            ) && line@ == buf@.subrange(0, line@.len() as int),
            LineScan::NeedMore => !contains_seq(buf@, seq![0x0au8]) && buf@.len() < ceiling,
            LineScan::TooLarge => !contains_seq(buf@, seq![0x0au8]) && buf@.len() >= ceiling,
        },
{
    let mut newline: Vec<u8> = Vec::new();
    newline.push(0x0a);
    proof {
        assert(newline@ =~= seq![0x0au8]);
        lemma_contains_iff_find(buf@, newline@);
    }
    match find_first(buf, &newline) {
        Some(i) => {
            proof {
                lemma_find_pat_spec(buf@, newline@, 0);
            }
            let mut line: Vec<u8> = Vec::new();
            let mut k: usize = 0;
            while k < i
                invariant
                    i <= buf@.len(),
                    k <= i,
                    line@ =~= buf@.subrange(0, k as int),
                decreases i - k,
            {
                line.push(buf[k]);
                proof {
                    assert(line@ =~= buf@.subrange(0, k + 1));
                }
                k = k + 1;
            }
            LineScan::Complete(line)
        },
        None => {
            if buf.len() >= ceiling {
                LineScan::TooLarge
            } else {
                LineScan::NeedMore
            }
        },
    }
}

} // verus!
