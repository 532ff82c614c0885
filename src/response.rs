//! Responses: a status, headers, and the bytes that have been sent.
use vstd::prelude::*;
use crate::fields::{keys_unique, upsert, Fields};
use crate::status::{status_line, StatusCode};
use crate::text::{concat, decimal, decimal_string};

verus! {

pub open spec fn crlf() -> Seq<char> {
    seq!['\r', '\n']
}

/// The header lines `Name: value` of `headers`, each ended by CRLF.
pub open spec fn header_block(headers: Seq<(Seq<char>, Seq<char>)>) -> Seq<char>
    decreases headers.len(),
{
    if headers.len() == 0 {
        Seq::empty()
    } else {
        let h = headers.last();
        header_block(headers.drop_last()) + h.0 + seq![':', ' '] + h.1 + crlf()
    }
}

/// A whole response on the wire: status line, headers, an empty line, body.
pub open spec fn wire(
    status: StatusCode,
    headers: Seq<(Seq<char>, Seq<char>)>,
    body: Seq<char>,
) -> Seq<char> {
    status_line(status) + crlf() + header_block(headers) + crlf() + body
}

pub open spec fn content_length_header() -> Seq<char> {
    "Content-Length"@
}

pub open spec fn content_type_header() -> Seq<char> {
    "Content-Type"@
}

pub open spec fn json_type() -> Seq<char> {
    "Application/json"@
}

/// The headers after sending a body of `length` bytes: `Content-Length` set
/// to that length.
pub open spec fn sent_headers(headers: Seq<(Seq<char>, Seq<char>)>, length: nat) -> Seq<
    (Seq<char>, Seq<char>),
> {
    upsert(headers, content_length_header(), decimal(length))
}

/// What a response holds, as values.
pub struct ResponseView {
    pub status: StatusCode,
    pub headers: Seq<(Seq<char>, Seq<char>)>,
    pub sent: Seq<char>,
}

/// The response of one connection. Each send appends one serialized
/// response to what has been sent.
pub struct Response {
    status: StatusCode,
    headers: Fields,
    sent: String,
}

impl View for Response {
    type V = ResponseView;

    closed spec fn view(&self) -> ResponseView {
        ResponseView { status: self.status, headers: self.headers@, sent: self.sent@ }
    }
}

impl Response {
    #[verifier::type_invariant]
    spec fn unique_headers(&self) -> bool {
        keys_unique(self.headers@)
    }

    /// A response with status OK, no headers, and nothing sent.
    pub fn new() -> (r: Response)
        ensures
            r@.status == StatusCode::OK,
            r@.headers == Seq::<(Seq<char>, Seq<char>)>::empty(),
            r@.sent == Seq::<char>::empty(),
            keys_unique(r@.headers),
    {
        Response { status: StatusCode::OK, headers: Fields::new(), sent: String::new() }
    }

    /// Sets header `header` to `value`.
    pub fn header(&mut self, header: &str, value: &str)
        ensures
            final(self)@.headers == upsert(old(self)@.headers, header@, value@),
            final(self)@.status == old(self)@.status,
            final(self)@.sent == old(self)@.sent,
            keys_unique(final(self)@.headers),
    {
        proof {
            use_type_invariant(&*self);
            crate::fields::lemma_upsert(self.headers@, header@, value@);
        }
        let mut headers = Fields::new();
        std::mem::swap(&mut headers, &mut self.headers);
        headers.insert(header.to_owned(), value.to_owned());
        self.headers = headers;
    }

    /// Sets the status.
    pub fn status(&mut self, status: StatusCode)
        ensures
            final(self)@.status == status,
            final(self)@.headers == old(self)@.headers,
            final(self)@.sent == old(self)@.sent,
            keys_unique(final(self)@.headers),
    {
        proof {
            use_type_invariant(&*self);
        }
        self.status = status;
    }

    /// Sets `Content-Length` to the byte length of `message` and sends the
    /// status line, the headers and `message`.
    pub fn send(&mut self, message: &str)
        ensures
            final(self)@.status == old(self)@.status,
            final(self)@.headers == sent_headers(old(self)@.headers, message.len() as nat),
            final(self)@.sent == old(self)@.sent + wire(
                old(self)@.status,
                final(self)@.headers,
                message@,
            ),
            keys_unique(final(self)@.headers),
    {
        let length = message.len();
        let name = "Content-Length".to_owned();
        let value = decimal_string(length);
        proof {
            use_type_invariant(&*self);
            crate::fields::lemma_upsert(self.headers@, name@, value@);
        }
        let mut headers = Fields::new();
        std::mem::swap(&mut headers, &mut self.headers);
        headers.insert(name, value);
        self.headers = headers;
        let mut out = String::new();
        out = concat(out.as_str(), self.status.to_str());
        out = concat(out.as_str(), "\r\n");
        let n = self.headers.len();
        let mut i: usize = 0;
        proof {
            reveal_strlit("\r\n");
            reveal_strlit(": ");
        }
        assert(self@.headers.subrange(0, 0) =~= Seq::<(Seq<char>, Seq<char>)>::empty());
        while i < n
            invariant
                i <= n == self@.headers.len(),
                out@ == status_line(self.status) + crlf() + header_block(
                    self@.headers.subrange(0, i as int),
                ),
            decreases n - i,
        {
            let (k, v) = self.headers.entry(i);
            out = concat(out.as_str(), k.as_str());
            out = concat(out.as_str(), ": ");
            out = concat(out.as_str(), v.as_str());
            out = concat(out.as_str(), "\r\n");
            proof {
                reveal_strlit("\r\n");
                reveal_strlit(": ");
            }
            let ghost pre = self@.headers.subrange(0, i + 1);
            assert(pre.drop_last() =~= self@.headers.subrange(0, i as int));
            assert(pre.last() == (k@, v@));
            assert(header_block(pre) == header_block(pre.drop_last()) + k@ + seq![':', ' '] + v@
                + crlf());
            i = i + 1;
            assert(out@ =~= status_line(self.status) + crlf() + header_block(
                self@.headers.subrange(0, i as int),
            ));
        }
        assert(self@.headers.subrange(0, n as int) =~= self@.headers);
        out = concat(out.as_str(), "\r\n");
        out = concat(out.as_str(), message);
        let sent = concat(self.sent.as_str(), out.as_str());
        self.sent = sent;
        assert(self@.sent =~= old(self)@.sent + wire(old(self)@.status, self@.headers, message@));
    }

    /// Sets `Content-Type: Application/json`, then sends `json` as it is.
    pub fn json(&mut self, json: &str)
        ensures
            final(self)@.status == old(self)@.status,
            final(self)@.headers == sent_headers(
                upsert(old(self)@.headers, content_type_header(), json_type()),
                json.len() as nat,
            ),
            final(self)@.sent == old(self)@.sent + wire(
                old(self)@.status,
                final(self)@.headers,
                json@,
            ),
            keys_unique(final(self)@.headers),
    {
        self.header("Content-Type", "Application/json");
        self.send(json);
    }

    /// Everything sent so far.
    pub fn sent(&self) -> (r: &String)
        ensures
            r@ == self@.sent,
    {
        &self.sent
    }

    /// The current status.
    pub fn get_status(&self) -> (r: StatusCode)
        ensures
            r == self@.status,
    {
        self.status
    }

    /// The value of header `header`, if set.
    pub fn get_header(&self, header: &str) -> (r: Option<&String>)
        ensures
            match r {
                Some(v) => crate::fields::lookup(self@.headers, header@) == Some(v@),
                None => crate::fields::lookup(self@.headers, header@) is None,
            },
    {
        self.headers.get(header)
    }
}

} // verus!
