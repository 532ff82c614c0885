//! A small HTTP/1.1 request-dispatch library: request parsing, route
//! registration with nested groups and middleware, and response writing.
use vstd::prelude::*;

pub mod fields;
pub mod request;
pub mod response;
pub mod router;
pub mod status;
pub mod text;

pub use fields::Fields;
pub use request::{parse_head, Request, RequestHead};
pub use response::Response;
pub use router::{
    after_guard, delete, first_step, get, group, group_e, group_g, group_ge, group_m, group_me, group_mg, patch, post, put,
    reject_unmapped, Dispatch, Endpoint, Group, Guard, Handler, Middleware, Next, Packcake, DELETE, GET,
    PATCH, POST, PUT,
};
pub use status::StatusCode;

verus! {

} // verus!
