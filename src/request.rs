//! Requests: the request line, the query string and the header block.
use vstd::prelude::*;
use crate::fields::{upsert, Fields};
use crate::text::{
    chars_of, decimal_value, find, find_char, has_prefix, is_decimal, parse_decimal, split, lemma_split_len,
    split_chars, starts_with, string_of, trim, trim_bounds, unsigned_digits,
};

verus! {

/// Whether `line` can be read as `METHOD SP TARGET ...`.
pub open spec fn is_request_line(line: Seq<char>) -> bool {
    line.len() > 0 && split(line, ' ').len() >= 2
}

pub open spec fn method_of(line: Seq<char>) -> Seq<char> {
    split(line, ' ')[0]
}

pub open spec fn target_of(line: Seq<char>) -> Seq<char> {
    split(line, ' ')[1]
}

/// The path of a request target: everything before the first `?`.
pub open spec fn path_of(target: Seq<char>) -> Seq<char> {
    target.subrange(0, find(target, '?') as int)
}

/// Query pairs in order; a pair is split at its first `=`, a pair without
/// `=` is dropped, and a later pair replaces an earlier one of the same key.
pub open spec fn params_from(pairs: Seq<Seq<char>>) -> Seq<(Seq<char>, Seq<char>)>
    decreases pairs.len(),
{
    if pairs.len() == 0 {
        Seq::empty()
    } else {
        let prev = params_from(pairs.drop_last());
        let p = pairs.last();
        let e = find(p, '=') as int;
        if e < p.len() {
            upsert(prev, p.subrange(0, e), p.subrange(e + 1, p.len() as int))
        } else {
            prev
        }
    }
}

/// The query parameters of a request target.
pub open spec fn query_params(target: Seq<char>) -> Seq<(Seq<char>, Seq<char>)> {
    let q = find(target, '?') as int;
    if q < target.len() {
        params_from(split(target.subrange(q + 1, target.len() as int), '&'))
    } else {
        Seq::empty()
    }
}

/// A line of the head without its carriage return.
pub open spec fn strip_cr(l: Seq<char>) -> Seq<char> {
    if l.len() > 0 && l.last() == '\r' {
        l.drop_last()
    } else {
        l
    }
}

/// The lines of a request head, each without its line ending.
pub open spec fn head_lines(text: Seq<char>) -> Seq<Seq<char>> {
    split(text, '\n').map_values(|l: Seq<char>| strip_cr(l))
}

/// The name of a header line: everything before its first `:`.
pub open spec fn header_name(l: Seq<char>) -> Seq<char> {
    l.subrange(0, find(l, ':') as int)
}

/// The value of a header line: what follows its first `:`, trimmed.
pub open spec fn header_value(l: Seq<char>) -> Seq<char> {
    let c = find(l, ':') as int;
    if c < l.len() {
        trim(l.subrange(c + 1, l.len() as int))
    } else {
        Seq::empty()
    }
}

/// Header lines shorter than this are noise and are skipped.
pub open spec fn min_header_line() -> nat {
    3
}

/// The headers that `lines` declare; a later line replaces an earlier one of
/// the same name.
pub open spec fn headers_from(lines: Seq<Seq<char>>) -> Seq<(Seq<char>, Seq<char>)>
    decreases lines.len(),
{
    if lines.len() == 0 {
        Seq::empty()
    } else {
        let prev = headers_from(lines.drop_last());
        let l = lines.last();
        if l.len() >= min_header_line() {
            upsert(prev, header_name(l), header_value(l))
        } else {
            prev
        }
    }
}

pub open spec fn content_length_name() -> Seq<char> {
    "Content-Length"@
}

/// The body length that `lines` declare: the value of the last line that
/// starts with `Content-Length`, 0 when there is none, and `None` when such
/// a line does not hold a decimal number (one leading `+` allowed) that fits
/// in `usize`.
pub open spec fn declared_length(lines: Seq<Seq<char>>) -> Option<nat>
    decreases lines.len(),
{
    if lines.len() == 0 {
        Some(0)
    } else {
        let prev = declared_length(lines.drop_last());
        let l = lines.last();
        if starts_with(l, content_length_name()) {
            let v = unsigned_digits(header_value(l));
            if prev is Some && is_decimal(v) && decimal_value(v) <= usize::MAX {
                Some(decimal_value(v))
            } else {
                None
            }
        } else {
            prev
        }
    }
}

/// What a request head holds: its request line, its headers and the length
/// of the body that follows it.
pub struct RequestHead {
    pub line: String,
    pub headers: Fields,
    pub content_length: usize,
}

proof fn lemma_declared_none(lines: Seq<Seq<char>>, k: int)
    requires
        0 <= k <= lines.len(),
        declared_length(lines.subrange(0, k)) is None,
    ensures
        declared_length(lines) is None,
    decreases lines.len() - k,
{
    if k == lines.len() {
        assert(lines.subrange(0, k) =~= lines);
    } else {
        let l = lines.subrange(0, k + 1);
        assert(l.drop_last() =~= lines.subrange(0, k));
        lemma_declared_none(lines, k + 1);
    }
}

/// Reads a request head: `text` is everything up to and including the empty
/// line that ends the headers. The first line is the request line, the
/// others are `Name: value` headers. `None` when a `Content-Length` line does
/// not hold a usable number.
pub fn parse_head(text: &str) -> (r: Option<RequestHead>)
    ensures
        match r {
            Some(h) => {
                let lines = head_lines(text@);
                &&& declared_length(lines.drop_first()) == Some(h.content_length as nat)
                &&& h.line@ == lines[0]
                &&& h.headers@ == headers_from(lines.drop_first())
            },
            None => declared_length(head_lines(text@).drop_first()) is None,
        },
{
    let chars = chars_of(text);
    let rows = split_chars(&chars, 0, chars.len(), '\n');
    let ghost lines = head_lines(text@);
    proof {
        lemma_split_len(text@, '\n');
    }
    assert(chars@.subrange(0, chars.len() as int) =~= chars@);
    assert(lines.len() == rows.len());
    let cl = chars_of("Content-Length");
    let first = &rows[0];
    let mut end0 = first.len();
    if end0 > 0 && first[end0 - 1] == '\r' {
        end0 = end0 - 1;
    }
    let line = string_of(first, 0, end0);
    assert(line@ =~= lines[0]);
    let mut headers = Fields::new();
    let mut length: usize = 0;
    let mut k: usize = 1;
    let ghost rest = lines.drop_first();
    assert(rest.subrange(0, 0) =~= Seq::<Seq<char>>::empty());
    while k < rows.len()
        invariant
            1 <= k <= rows.len(),
            rows.len() == lines.len(),
            rest == lines.drop_first(),
            lines == head_lines(text@),
            rows@.map_values(|p: Vec<char>| p@) == split(text@, '\n'),
            cl@ == content_length_name(),
            headers@ == headers_from(rest.subrange(0, k - 1)),
            declared_length(rest.subrange(0, k - 1)) == Some(length as nat),
        decreases rows.len() - k,
    {
        let row = &rows[k];
        let mut end = row.len();
        if end > 0 && row[end - 1] == '\r' {
            end = end - 1;
        }
        let ghost l = rest[k - 1];
        assert(l == lines[k as int]);
        assert(row@.subrange(0, end as int) =~= l);
        let ghost pre = rest.subrange(0, k as int);
        assert(pre.drop_last() =~= rest.subrange(0, k - 1));
        assert(pre.last() == l);
        let colon = find_char(row, 0, end, ':');
        let (a, b) = if colon < end {
            trim_bounds(row, colon + 1, end)
        } else {
            (end, end)
        };
        proof {
            if colon < end {
                assert(row@.subrange(colon + 1, end as int) =~= l.subrange(
                    colon + 1,
                    l.len() as int,
                ));
            }
            assert(row@.subrange(a as int, b as int) =~= header_value(l));
        }
        if end >= 3 {
            let name = string_of(row, 0, colon);
            let value = string_of(row, a, b);
            assert(name@ =~= header_name(l));
            headers.insert(name, value);
        }
        if has_prefix(row, 0, end, &cl) {
            match parse_decimal(row, a, b) {
                Some(n) => {
                    length = n;
                },
                None => {
                    proof {
                        lemma_declared_none(rest, k as int);
                    }
                    return None;
                },
            }
        }
        k = k + 1;
    }
    assert(rest.subrange(0, k - 1) =~= rest);
    Some(RequestHead { line, headers, content_length: length })
}

/// A head without a `Content-Length` line declares an empty body, whatever
/// follows it on the stream.
pub proof fn law_absent_length_is_zero(lines: Seq<Seq<char>>)
    requires
        forall|i: int| 0 <= i < lines.len() ==> !starts_with(#[trigger] lines[i], content_length_name()),
    ensures
        declared_length(lines) == Some(0nat),
    decreases lines.len(),
{
    if lines.len() > 0 {
        let prev = lines.drop_last();
        assert forall|i: int| 0 <= i < prev.len() implies !starts_with(#[trigger] prev[i], content_length_name()) by {
            assert(prev[i] == lines[i]);
        }
        law_absent_length_is_zero(prev);
        assert(!starts_with(lines[lines.len() - 1], content_length_name()));
    }
}

/// What a request holds, as values.
pub struct RequestView {
    pub method: Seq<char>,
    pub uri: Seq<char>,
    pub params: Seq<(Seq<char>, Seq<char>)>,
    pub headers: Seq<(Seq<char>, Seq<char>)>,
    pub body: Seq<char>,
}

/// One parsed request.
pub struct Request {
    method: String,
    uri: String,
    params: Fields,
    headers: Fields,
    body: String,
}

impl View for Request {
    type V = RequestView;

    closed spec fn view(&self) -> RequestView {
        RequestView {
            method: self.method@,
            uri: self.uri@,
            params: self.params@,
            headers: self.headers@,
            body: self.body@,
        }
    }
}

impl Request {
    /// Builds a request from its request line `METHOD SP PATH[?QUERY] ...`,
    /// its headers and its body. `None` when the line is empty or has no
    /// target.
    pub fn new(line: &str, headers: Fields, body: String) -> (r: Option<Request>)
        ensures
            match r {
                Some(q) => {
                    &&& is_request_line(line@)
                    &&& q@.method == method_of(line@)
                    &&& q@.uri == path_of(target_of(line@))
                    &&& q@.params == query_params(target_of(line@))
                    &&& q@.headers == headers@
                    &&& q@.body == body@
                },
                None => !is_request_line(line@),
            },
    {
        let chars = chars_of(line);
        if chars.len() == 0 {
            return None;
        }
        let words = split_chars(&chars, 0, chars.len(), ' ');
        assert(chars@.subrange(0, chars.len() as int) =~= chars@);
        if words.len() < 2 {
            return None;
        }
        let method = string_of(&words[0], 0, words[0].len());
        assert(method@ =~= method_of(line@));
        let target = &words[1];
        let ghost t = target_of(line@);
        assert(target@ == t);
        let q = find_char(target, 0, target.len(), '?');
        assert(target@.subrange(0, target.len() as int) =~= t);
        let uri = string_of(target, 0, q);
        let mut params = Fields::new();
        if q < target.len() {
            let pairs = split_chars(target, q + 1, target.len(), '&');
            let ghost ps = pairs@.map_values(|p: Vec<char>| p@);
            assert(target@.subrange(q + 1, target.len() as int) =~= t.subrange(
                q + 1,
                t.len() as int,
            ));
            let mut k: usize = 0;
            assert(ps.subrange(0, 0) =~= Seq::<Seq<char>>::empty());
            while k < pairs.len()
                invariant
                    k <= pairs.len(),
                    ps == pairs@.map_values(|p: Vec<char>| p@),
                    params@ == params_from(ps.subrange(0, k as int)),
                decreases pairs.len() - k,
            {
                let p = &pairs[k];
                assert(p@ == ps[k as int]);
                let ghost pre = ps.subrange(0, k + 1);
                assert(pre.drop_last() =~= ps.subrange(0, k as int));
                let e = find_char(p, 0, p.len(), '=');
                assert(p@.subrange(0, p.len() as int) =~= p@);
                if e < p.len() {
                    let key = string_of(p, 0, e);
                    let value = string_of(p, e + 1, p.len());
                    params.insert(key, value);
                }
                k = k + 1;
            }
            assert(ps.subrange(0, k as int) =~= ps);
        }
        Some(Request { method, uri, params, headers, body })
    }

    /// The value of header `header`, if the request has it.
    pub fn get_header(&self, header: &str) -> (r: Option<&String>)
        ensures
            match r {
                Some(v) => crate::fields::lookup(self@.headers, header@) == Some(v@),
                None => crate::fields::lookup(self@.headers, header@) is None,
            },
    {
        self.headers.get(header)
    }

    /// The value of query parameter `param`, if the request has it.
    pub fn get_param(&self, param: &str) -> (r: Option<&String>)
        ensures
            match r {
                Some(v) => crate::fields::lookup(self@.params, param@) == Some(v@),
                None => crate::fields::lookup(self@.params, param@) is None,
            },
    {
        self.params.get(param)
    }

    /// The body of the request.
    pub fn get_body(&self) -> (r: &String)
        ensures
            r@ == self@.body,
    {
        &self.body
    }

    /// The method of the request.
    pub fn method(&self) -> (r: &String)
        ensures
            r@ == self@.method,
    {
        &self.method
    }

    /// The path of the request, without its query string.
    pub fn uri(&self) -> (r: &String)
        ensures
            r@ == self@.uri,
    {
        &self.uri
    }
}

} // verus!
