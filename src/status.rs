//! Response status codes and their status lines.
use vstd::prelude::*;

verus! {

/// The statuses a response can carry.
#[derive(Clone, Copy, Debug, PartialEq, Eq, Structural)]
pub enum StatusCode {
    OK,
    Created,
    NotFound,
    BadRequest,
}

/// The status line written for `s`.
pub open spec fn status_line(s: StatusCode) -> Seq<char> {
    match s {
        StatusCode::OK => "HTTP/1.1 200 OK"@,
        StatusCode::Created => "HTTP/1.1 201 CREATED"@,
        StatusCode::NotFound => "HTTP/1.1 404 NOT FOUND"@,
        StatusCode::BadRequest => "HTTP/1.1 400 BAD REQUEST"@,
    }
}

impl StatusCode {
    /// The status line of this status, without its line break.
    pub fn to_str(&self) -> (r: &'static str)
        ensures
            r@ == status_line(*self),
    {
        match self {
            StatusCode::OK => "HTTP/1.1 200 OK",
            StatusCode::Created => "HTTP/1.1 201 CREATED",
            StatusCode::NotFound => "HTTP/1.1 404 NOT FOUND",
            StatusCode::BadRequest => "HTTP/1.1 400 BAD REQUEST",
        }
    }
}

} // verus!
