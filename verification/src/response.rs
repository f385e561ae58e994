//! Response framing: a status line, explicit headers, a `Content-Length`
//! header and the body, in that order, with CRLF line ends. The serialized
//! byte shape is fixed by `serialized`.
use vstd::prelude::*;

use vstd::string::StrSliceExecFns;
use vstd::string::StringSliceAdditionalSpecFns;

verus! {

/// The decimal digits of a non-negative number, most significant first.
pub open spec fn dec_digits(n: int) -> Seq<u8>
    recommends
        n >= 0,
    decreases n,
{
    if n < 10 {
        seq![(0x30 + n) as u8]
    } else {
        dec_digits(n / 10) + seq![(0x30 + (n % 10)) as u8]
    }
}

/// The decimal digits of `n` as bytes.
pub fn dec_bytes(n: usize) -> (r: Vec<u8>)
    ensures
        r@ == dec_digits(n as int),
    decreases n,
{
    if n < 10 {
        let mut r: Vec<u8> = Vec::new();
        r.push(0x30 + (n as u8));
        proof {
            assert(r@ =~= dec_digits(n as int));
        }
        r
    } else {
        let mut r = dec_bytes(n / 10);
        r.push(0x30 + ((n % 10) as u8));
        proof {
            assert(r@ =~= dec_digits(n as int / 10) + seq![(0x30 + (n as int % 10)) as u8]);
        }
        r
    }
}

/// The line end used on the wire.
pub open spec fn crlf() -> Seq<u8> {
    seq![0x0du8, 0x0au8]
}

/// The reason phrase for the statuses this service emits; empty otherwise.
pub open spec fn reason_phrase(status: int) -> Seq<u8> {
    if status == 200 {
        "OK".spec_bytes()
    } else if status == 301 {
        "Moved Permanently".spec_bytes()
    } else if status == 404 {
        "Not Found".spec_bytes()
    } else if status == 500 {
        "Internal Server Error".spec_bytes()
    } else {
        Seq::empty()
    }
}

/// The status line: `HTTP/1.1 <status> <reason>\r\n`.
pub open spec fn status_line_bytes(status: int) -> Seq<u8> {
    "HTTP/1.1 ".spec_bytes() + dec_digits(status) + seq![0x20u8] + reason_phrase(status) + crlf()
}

/// One header line: `<name>: <value>\r\n`.
pub open spec fn header_line(name: Seq<u8>, value: Seq<u8>) -> Seq<u8> {
    name + seq![0x3au8, 0x20u8] + value + crlf()
}

/// One response header.
#[derive(Debug)]
pub struct Header {
    pub name: Vec<u8>,
    pub value: Vec<u8>,
}

/// The mathematical model of a header.
pub struct HeaderModel {
    pub name: Seq<u8>,
    pub value: Seq<u8>,
}

impl View for Header {
    type V = HeaderModel;

    open spec fn view(&self) -> HeaderModel {
        HeaderModel { name: self.name@, value: self.value@ }
    }
}

impl DeepView for Header {
    type V = HeaderModel;

    open spec fn deep_view(&self) -> HeaderModel {
        self.view()
    }
}

/// The header block of a header list, in order.
pub open spec fn headers_bytes(hs: Seq<HeaderModel>) -> Seq<u8>
    decreases hs.len(),
{
    if hs.len() == 0 {
        Seq::empty()
    } else {
        header_line(hs[0].name, hs[0].value) + headers_bytes(hs.drop_first())
    }
}

/// A response before it goes on the wire.
#[derive(Debug)]
pub struct HttpResponse {
    pub status: u16,
    pub headers: Vec<Header>,
    pub body: Vec<u8>,
}

/// The mathematical model of a response.
pub struct ResponseModel {
    pub status: int,
    pub headers: Seq<HeaderModel>,
    pub body: Seq<u8>,
}

impl View for HttpResponse {
    type V = ResponseModel;

    open spec fn view(&self) -> ResponseModel {
        ResponseModel {
            status: self.status as int,
            headers: self.headers.deep_view(),
            body: self.body@,
        }
    }
}

/// The exact bytes of a response on the wire: status line, the listed
/// headers, an explicit `Content-Length`, an empty line, then the body.
pub open spec fn serialized(r: ResponseModel) -> Seq<u8> {
    status_line_bytes(r.status) + headers_bytes(r.headers) + header_line(
        "Content-Length".spec_bytes(),
        dec_digits(r.body.len() as int),
    ) + crlf() + r.body
}

/// The bytes of an ASCII-capable string literal.
fn lit(s: &str) -> (r: Vec<u8>)
    ensures
        r@ == s.spec_bytes(),
{
    s.as_bytes_vec()
}

impl HttpResponse {
    /// A response with a status and a body and no extra headers yet.
    pub fn new(status: u16, body: Vec<u8>) -> (r: HttpResponse)
        ensures
            r@.status == status as int,
            r@.headers == Seq::<HeaderModel>::empty(),
            r@.body == body@,
    {
        let r = HttpResponse { status, headers: Vec::new(), body };
        proof {
            assert(r@.headers =~= Seq::<HeaderModel>::empty());
        }
        r
    }

    /// Append one header.
    pub fn add_header(&mut self, name: Vec<u8>, value: Vec<u8>)
        ensures
            final(self).status == old(self).status,
            final(self).body == old(self).body,
            final(self)@.headers == old(self)@.headers.push(
                HeaderModel { name: name@, value: value@ },
            ),
    {
        let ghost before = self.headers.deep_view();
        self.headers.push(Header { name, value });
        proof {
            assert(self.headers.deep_view() =~= before.push(self.headers@.last()@));
        }
    }

    /// Serialize the response for the wire, exactly as `serialized` says.
    pub fn to_bytes(&self) -> (r: Vec<u8>)
        ensures
            r@ == serialized(self@),
    {
        let ghost model = self@;
        let ghost hview = self.headers.deep_view();
        proof {
            assert(forall|k: int|
                0 <= k < self.headers@.len() ==> hview[k] == #[trigger] self.headers@[k]@);
        }
        // Status line.
        let mut out = lit("HTTP/1.1 ");
        let digits = dec_bytes(self.status as usize);
        let mut k: usize = 0;
        let ghost out0 = out@;
        while k < digits.len()
            invariant
                k <= digits@.len(),
                out@ =~= out0 + digits@.subrange(0, k as int),
            decreases digits.len() - k,
        {
            out.push(digits[k]);
            proof {
                assert(out@ =~= out0 + digits@.subrange(0, k + 1));
            }
            k = k + 1;
        }
        proof {
            assert(digits@.subrange(0, digits@.len() as int) =~= digits@);
        }
        out.push(0x20);
        let reason = match self.status {
            200u16 => lit("OK"),
            301u16 => lit("Moved Permanently"),
            404u16 => lit("Not Found"),
            500u16 => lit("Internal Server Error"),
            _ => Vec::new(),
        };
        proof {
            assert(reason@ == reason_phrase(model.status));
        }
        let out = append_all(out, &reason);
        let mut out = push_crlf(out);
        proof {
            assert(out@ =~= status_line_bytes(model.status));
        }
        // Header block.
        let mut i: usize = 0;
        let n = self.headers.len();
        proof {
            assert(hview.skip(0) =~= hview);
        }
        while i < n
            invariant
                n == self.headers@.len(),
                hview == self.headers.deep_view(),
                hview.len() == n,
                forall|k2: int| 0 <= k2 < n ==> hview[k2] == #[trigger] self.headers@[k2]@,
                i <= n,
                out@ + headers_bytes(hview.skip(i as int)) =~= status_line_bytes(model.status)
                    + headers_bytes(hview),
            decreases n - i,
        {
            let ghost before = out@;
            let h = &self.headers[i];
            let out2 = append_all(out, &h.name);
            let mut out2 = out2;
            out2.push(0x3a);
            out2.push(0x20);
            let out2 = append_all(out2, &h.value);
            out = push_crlf(out2);
            proof {
                assert(out@ =~= before + header_line(hview[i as int].name, hview[i as int].value));
                assert(hview.skip(i as int).drop_first() =~= hview.skip(i + 1));
                assert(headers_bytes(hview.skip(i as int)) == header_line(
                    hview[i as int].name,
                    hview[i as int].value,
                ) + headers_bytes(hview.skip(i + 1)));
                assert(out@ + headers_bytes(hview.skip(i + 1)) =~= before + headers_bytes(
                    hview.skip(i as int),
                ));
            }
            i = i + 1;
        }
        proof {
            assert(hview.skip(n as int) =~= Seq::<HeaderModel>::empty());
            assert(out@ =~= status_line_bytes(model.status) + headers_bytes(hview));
        }
        // Content-Length, blank line, body.
        let cl_name = lit("Content-Length");
        let out2 = append_all(out, &cl_name);
        let mut out2 = out2;
        out2.push(0x3a);
        out2.push(0x20);
        let cl_digits = dec_bytes(self.body.len());
        let out2 = append_all(out2, &cl_digits);
        let out2 = push_crlf(out2);
        proof {
            assert(out2@ =~= status_line_bytes(model.status) + headers_bytes(hview) + header_line(
                "Content-Length".spec_bytes(),
                dec_digits(model.body.len() as int),
            ));
        }
        let out3 = push_crlf(out2);
        let out4 = append_all(out3, &self.body);
        proof {
            assert(out4@ =~= serialized(model));
        }
        out4
    }
}

/// `acc` with all of `tail` appended.
fn append_all(acc: Vec<u8>, tail: &Vec<u8>) -> (r: Vec<u8>)
    ensures
        r@ == acc@ + tail@,
{
    let mut r = acc;
    let ghost base = r@;
    let mut k: usize = 0;
    while k < tail.len()
        invariant
            k <= tail@.len(),
            r@ =~= base + tail@.subrange(0, k as int),
        decreases tail.len() - k,
    {
        r.push(tail[k]);
        proof {
            assert(r@ =~= base + tail@.subrange(0, k + 1));
        }
        k = k + 1;
    }
    proof {
        assert(tail@.subrange(0, tail@.len() as int) =~= tail@);
    }
    r
}

/// `acc` with a CRLF appended.
fn push_crlf(acc: Vec<u8>) -> (r: Vec<u8>)
    ensures
        r@ == acc@ + crlf(),
{
    let mut r = acc;
    let ghost base = r@;
    r.push(0x0d);
    r.push(0x0a);
    proof {
        assert(r@ =~= base + crlf());
    }
    r
}

} // verus!
