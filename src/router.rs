//! Routes: endpoints, middleware, groups of routes under a common prefix,
//! and the table that maps a method and an exact path to an endpoint.
use vstd::prelude::*;
use crate::request::Request;
use crate::response::Response;
use crate::status::StatusCode;
use crate::text::concat;

verus! {

/// The method names of the routes that can be registered.
pub const GET: &'static str = "GET";

pub const POST: &'static str = "POST";

pub const PUT: &'static str = "PUT";

pub const PATCH: &'static str = "PATCH";

pub const DELETE: &'static str = "DELETE";

/// A guard run before a handler. It returns `false` when it has produced
/// the final response itself and nothing after it may run.
pub trait Guard {
    fn check(&self, request: &Request, response: &mut Response) -> bool;
}

/// What answers a request on a route.
pub trait Handler {
    fn handle(&self, request: &Request, response: &mut Response);
}

/// One guard of a middleware chain.
#[derive(Clone, Copy, Debug)]
pub struct Middleware<G> {
    action: G,
}

impl<G> Middleware<G> {
    /// The guard that this middleware runs.
    pub closed spec fn action(self) -> G {
        self.action
    }
}

impl<G: Copy> Middleware<G> {
    pub fn new(action: G) -> (r: Middleware<G>)
        ensures
            r.action() == action,
    {
        Middleware { action }
    }
}

impl<G: Guard> Middleware<G> {
    /// Runs the guard on a request and its response.
    pub fn trigger(&self, request: &Request, response: &mut Response) -> bool {
        self.action.check(request, response)
    }
}

/// The value of a middleware list that may be absent.
pub open spec fn or_empty<T>(o: Option<Vec<T>>) -> Seq<T> {
    match o {
        Some(v) => v@,
        None => Seq::empty(),
    }
}

/// A registered route, as values: the middleware runs first to last, then
/// the handler.
pub struct EndpointView<H, G> {
    pub method: Seq<char>,
    pub uri: Seq<char>,
    pub handler: H,
    pub middleware: Seq<Middleware<G>>,
}

/// A route: a method, a path, a handler and its middleware chain.
#[derive(Clone)]
pub struct Endpoint<H, G> {
    method: String,
    uri: String,
    handler: H,
    middleware: Vec<Middleware<G>>,
}

impl<H, G> View for Endpoint<H, G> {
    type V = EndpointView<H, G>;

    closed spec fn view(&self) -> EndpointView<H, G> {
        EndpointView {
            method: self.method@,
            uri: self.uri@,
            handler: self.handler,
            middleware: self.middleware@,
        }
    }
}

/// `a` followed by `b`.
fn join_chain<G: Copy>(a: &Vec<Middleware<G>>, b: &Vec<Middleware<G>>) -> (r: Vec<Middleware<G>>)
    ensures
        r@ == a@ + b@,
{
    let mut out: Vec<Middleware<G>> = Vec::new();
    let mut i: usize = 0;
    while i < a.len()
        invariant
            i <= a.len(),
            out@ == a@.subrange(0, i as int),
        decreases a.len() - i,
    {
        out.push(a[i]);
        i = i + 1;
        assert(out@ =~= a@.subrange(0, i as int));
    }
    let mut j: usize = 0;
    while j < b.len()
        invariant
            j <= b.len(),
            out@ == a@ + b@.subrange(0, j as int),
        decreases b.len() - j,
    {
        out.push(b[j]);
        j = j + 1;
        assert(out@ =~= a@ + b@.subrange(0, j as int));
    }
    assert(b@.subrange(0, b.len() as int) =~= b@);
    out
}

/// What running a middleware chain came to: the verdicts of the guards that
/// ran, in order, and whether the handler ran.
pub struct Dispatch {
    pub verdicts: Vec<bool>,
    pub handled: bool,
}

/// The verdicts of a chain of `n` guards that stops at the first `false`:
/// every verdict but the last is `true`, and the chain ends early only on a
/// `false`.
pub open spec fn stops_at_first_failure(verdicts: Seq<bool>, n: nat) -> bool {
    &&& verdicts.len() <= n
    &&& forall|i: int| 0 <= i < verdicts.len() - 1 ==> #[trigger] verdicts[i]
    &&& verdicts.len() < n ==> verdicts.len() > 0 && !verdicts.last()
}

/// Whether the handler runs after the guards gave `verdicts`.
pub open spec fn all_passed(verdicts: Seq<bool>, n: nat) -> bool {
    verdicts.len() == n && forall|i: int| 0 <= i < verdicts.len() ==> #[trigger] verdicts[i]
}

impl<H: Copy, G: Copy> Endpoint<H, G> {
    /// The method of the route.
    pub fn method(&self) -> (r: &String)
        ensures
            r@ == self@.method,
    {
        &self.method
    }

    /// The full path of the route.
    pub fn uri(&self) -> (r: &String)
        ensures
            r@ == self@.uri,
    {
        &self.uri
    }

    /// The middleware chain of the route, first to run first.
    pub fn middleware(&self) -> (r: &Vec<Middleware<G>>)
        ensures
            r@ == self@.middleware,
    {
        &self.middleware
    }

    /// The handler of the route.
    pub fn handler(&self) -> (r: H)
        ensures
            r == self@.handler,
    {
        self.handler
    }

    /// Replaces the middleware chain.
    fn set_middleware(&mut self, middleware: Option<Vec<Middleware<G>>>)
        ensures
            final(self)@ == (EndpointView { middleware: or_empty(middleware), ..old(self)@ }),
    {
        match middleware {
            Some(m) => {
                self.middleware = m;
            },
            None => {
                self.middleware = Vec::new();
            },
        }
    }
}

/// What a middleware chain does next: run the guard at an index, run the
/// handler, or stop.
#[derive(Clone, Copy, Debug, PartialEq, Eq, Structural)]
pub enum Next {
    Guard(usize),
    Handle,
    Stop,
}

/// The first step of a chain of `n` guards.
pub open spec fn first_step_spec(n: nat) -> Next {
    if n == 0 {
        Next::Handle
    } else {
        Next::Guard(0)
    }
}

/// The step after guard `i` of a chain of `n` guards answered `passed`.
pub open spec fn step_after(i: nat, n: nat, passed: bool) -> Next {
    if !passed {
        Next::Stop
    } else if i + 1 < n {
        Next::Guard((i + 1) as usize)
    } else {
        Next::Handle
    }
}

/// The first step of a chain of `n` guards: the handler at once when there
/// are none, else the first guard.
pub fn first_step(n: usize) -> (r: Next)
    ensures
        r == first_step_spec(n as nat),
{
    if n == 0 {
        Next::Handle
    } else {
        Next::Guard(0)
    }
}

/// The step after guard `i` of `n` answered `passed`: stop on `false`, else
/// the next guard, else the handler.
pub fn after_guard(i: usize, n: usize, passed: bool) -> (r: Next)
    requires
        i < n,
    ensures
        r == step_after(i as nat, n as nat, passed),
{
    if !passed {
        Next::Stop
    } else if i + 1 < n {
        Next::Guard(i + 1)
    } else {
        Next::Handle
    }
}

impl<H: Handler + Copy, G: Guard + Copy> Endpoint<H, G> {
    /// Runs the guards in order and stops at the first that returns `false`;
    /// when every guard passed (an empty chain included), runs the handler.
    /// Each step is the one that `first_step` and `after_guard` give for the
    /// guards' answers, which `r.verdicts` lists in order.
    pub fn dispatch(&self, request: &Request, response: &mut Response) -> (r: Dispatch)
        ensures
            stops_at_first_failure(r.verdicts@, self@.middleware.len()),
            r.handled == all_passed(r.verdicts@, self@.middleware.len()),
            r.verdicts@.len() == 0 ==> first_step_spec(self@.middleware.len()) == (if r.handled {
                Next::Handle
            } else {
                Next::Stop
            }),
            r.verdicts@.len() > 0 ==> first_step_spec(self@.middleware.len()) == Next::Guard(0),
            forall|i: int|
                0 <= i < r.verdicts@.len() - 1 ==> step_after(
                    i as nat,
                    self@.middleware.len(),
                    #[trigger] r.verdicts@[i],
                ) == Next::Guard((i + 1) as usize),
            r.verdicts@.len() > 0 ==> step_after(
                (r.verdicts@.len() - 1) as nat,
                self@.middleware.len(),
                r.verdicts@.last(),
            ) == (if r.handled {
                Next::Handle
            } else {
                Next::Stop
            }),
    {
        let n = self.middleware.len();
        let mut verdicts: Vec<bool> = Vec::new();
        let mut next = first_step(n);
        loop
            invariant
                n == self@.middleware.len(),
                verdicts@.len() <= n,
                verdicts@.len() == 0 ==> next == first_step_spec(n as nat),
                verdicts@.len() > 0 ==> first_step_spec(n as nat) == Next::Guard(0),
                verdicts@.len() > 0 ==> next == step_after(
                    (verdicts@.len() - 1) as nat,
                    n as nat,
                    verdicts@.last(),
                ),
                forall|j: int|
                    0 <= j < verdicts@.len() - 1 ==> step_after(j as nat, n as nat, #[trigger] verdicts@[j])
                        == Next::Guard((j + 1) as usize),
                forall|j: int| 0 <= j < verdicts@.len() - 1 ==> #[trigger] verdicts@[j],
                next is Guard ==> next->Guard_0 == verdicts@.len() && verdicts@.len() < n,
                next is Handle ==> verdicts@.len() == n,
                next is Handle && verdicts@.len() > 0 ==> verdicts@.last(),
                next is Stop ==> verdicts@.len() > 0 && !verdicts@.last(),
            decreases (n - verdicts@.len()) as int + (if next is Guard { 1int } else { 0int }),
        {
            match next {
                Next::Guard(i) => {
                    let passed = self.middleware[i].trigger(request, response);
                    let ghost before = verdicts@;
                    verdicts.push(passed);
                    assert(verdicts@.drop_last() =~= before);
                    proof {
                        assert forall|j: int| 0 <= j < verdicts@.len() - 1 implies #[trigger] verdicts@[j] by {
                            assert(verdicts@[j] == before[j]);
                            if j < before.len() - 1 {
                            } else {
                                assert(j == before.len() - 1);
                            }
                        }
                        assert forall|j: int| 0 <= j < verdicts@.len() - 1 implies step_after(
                            j as nat,
                            n as nat,
                            #[trigger] verdicts@[j],
                        ) == Next::Guard((j + 1) as usize) by {
                            assert(verdicts@[j] == before[j]);
                        }
                    }
                    next = after_guard(i, n, passed);
                },
                Next::Handle => {
                    proof {
                        assert forall|j: int| 0 <= j < verdicts@.len() implies #[trigger] verdicts@[j] by {
                            if j == verdicts@.len() - 1 {
                            }
                        }
                    }
                    self.handler.handle(request, response);
                    return Dispatch { verdicts, handled: true };
                },
                Next::Stop => {
                    assert(!verdicts@[verdicts@.len() - 1]);
                    assert(!all_passed(verdicts@, n as nat));
                    return Dispatch { verdicts, handled: false };
                },
            }
        }
    }
}

fn endpoint<H: Copy, G: Copy>(
    method: &str,
    uri: &str,
    middleware: Option<Vec<Middleware<G>>>,
    handler: H,
) -> (r: Endpoint<H, G>)
    ensures
        r@ == (EndpointView {
            method: method@,
            uri: uri@,
            handler,
            middleware: or_empty(middleware),
        }),
{
    let mut e = Endpoint { method: method.to_owned(), uri: uri.to_owned(), handler, middleware: Vec::new() };
    e.set_middleware(middleware);
    e
}

/// A `GET` route at `uri`, without middleware of its own.
pub fn get<H: Copy, G: Copy>(uri: &str, handler: H) -> (r: Endpoint<H, G>)
    ensures
        r@ == (EndpointView::<H, G> { method: GET@, uri: uri@, handler, middleware: Seq::empty() }),
{
    endpoint(GET, uri, None, handler)
}

/// A `POST` route at `uri`, without middleware of its own.
pub fn post<H: Copy, G: Copy>(uri: &str, handler: H) -> (r: Endpoint<H, G>)
    ensures
        r@ == (EndpointView::<H, G> { method: POST@, uri: uri@, handler, middleware: Seq::empty() }),
{
    endpoint(POST, uri, None, handler)
}

/// A `PUT` route at `uri`, without middleware of its own.
pub fn put<H: Copy, G: Copy>(uri: &str, handler: H) -> (r: Endpoint<H, G>)
    ensures
        r@ == (EndpointView::<H, G> { method: PUT@, uri: uri@, handler, middleware: Seq::empty() }),
{
    endpoint(PUT, uri, None, handler)
}

/// A `PATCH` route at `uri`, without middleware of its own.
pub fn patch<H: Copy, G: Copy>(uri: &str, handler: H) -> (r: Endpoint<H, G>)
    ensures
        r@ == (EndpointView::<H, G> { method: PATCH@, uri: uri@, handler, middleware: Seq::empty() }),
{
    endpoint(PATCH, uri, None, handler)
}

/// A `DELETE` route at `uri`, without middleware of its own.
pub fn delete<H: Copy, G: Copy>(uri: &str, handler: H) -> (r: Endpoint<H, G>)
    ensures
        r@ == (EndpointView::<H, G> { method: DELETE@, uri: uri@, handler, middleware: Seq::empty() }),
{
    endpoint(DELETE, uri, None, handler)
}


/// A registration-time tree node: a path prefix, middleware inherited by all
/// that it holds, nested groups and endpoints.
pub struct Group<H, G> {
    uri: String,
    middleware: Vec<Middleware<G>>,
    groups: Vec<Group<H, G>>,
    endpoints: Vec<Endpoint<H, G>>,
}

impl<H, G> Group<H, G> {
    /// The path prefix of the group.
    pub closed spec fn prefix(self) -> Seq<char> {
        self.uri@
    }

    /// The middleware of the group.
    pub closed spec fn chain(self) -> Seq<Middleware<G>> {
        self.middleware@
    }

    /// The groups nested in this one.
    pub closed spec fn subgroups(self) -> Seq<Group<H, G>> {
        self.groups@
    }

    /// The endpoints directly in this group.
    pub closed spec fn members(self) -> Seq<Endpoint<H, G>> {
        self.endpoints@
    }
}

impl<H: Copy, G: Copy> Group<H, G> {
    pub fn new(
        uri: &str,
        middleware: Option<Vec<Middleware<G>>>,
        groups: Option<Vec<Group<H, G>>>,
        endpoints: Option<Vec<Endpoint<H, G>>>,
    ) -> (r: Group<H, G>)
        ensures
            r.prefix() == uri@,
            r.chain() == or_empty(middleware),
            r.subgroups() == or_empty(groups),
            r.members() == or_empty(endpoints),
    {
        let middleware = match middleware {
            Some(m) => m,
            None => Vec::new(),
        };
        let groups = match groups {
            Some(g) => g,
            None => Vec::new(),
        };
        let endpoints = match endpoints {
            Some(e) => e,
            None => Vec::new(),
        };
        Group { uri: uri.to_owned(), middleware, groups, endpoints }
    }
}

/// `e` placed under `prefix`, behind the guards `chain`: the outer guards
/// run first, the endpoint's own ones last.
pub open spec fn placed<H, G>(
    prefix: Seq<char>,
    chain: Seq<Middleware<G>>,
    e: EndpointView<H, G>,
) -> EndpointView<H, G> {
    EndpointView {
        method: e.method,
        uri: prefix + e.uri,
        handler: e.handler,
        middleware: chain + e.middleware,
    }
}

/// Each of `es` placed under `prefix` and `chain`, in order.
pub open spec fn placed_all<H, G>(
    prefix: Seq<char>,
    chain: Seq<Middleware<G>>,
    es: Seq<Endpoint<H, G>>,
) -> Seq<EndpointView<H, G>> {
    es.map_values(|e: Endpoint<H, G>| placed(prefix, chain, e@))
}

/// The endpoints that the groups `gs` hold, under `prefix` and `chain`, in
/// registration order: group by group, each group's nested groups first,
/// then its own endpoints. A group's path is `prefix` followed by its own
/// prefix; its chain is `chain` followed by its own middleware.
pub open spec fn flat_groups<H, G>(
    prefix: Seq<char>,
    chain: Seq<Middleware<G>>,
    gs: Seq<Group<H, G>>,
) -> Seq<EndpointView<H, G>>
    decreases gs,
{
    if gs.len() == 0 {
        Seq::empty()
    } else {
        let g = gs.last();
        let p = prefix + g.prefix();
        let c = chain + g.chain();
        flat_groups(prefix, chain, gs.drop_last()) + flat_groups(p, c, g.subgroups()) + placed_all(
            p,
            c,
            g.members(),
        )
    }
}

/// The key under which an endpoint is registered.
pub open spec fn key_of<H, G>(e: EndpointView<H, G>) -> (Seq<char>, Seq<char>) {
    (e.method, e.uri)
}

/// `table` after registering `es` in order; a later endpoint replaces an
/// earlier one with the same method and path.
pub open spec fn register_all<H, G>(
    table: Map<(Seq<char>, Seq<char>), EndpointView<H, G>>,
    es: Seq<EndpointView<H, G>>,
) -> Map<(Seq<char>, Seq<char>), EndpointView<H, G>>
    decreases es.len(),
{
    if es.len() == 0 {
        table
    } else {
        register_all(table, es.drop_last()).insert(key_of(es.last()), es.last())
    }
}

pub proof fn lemma_register_concat<H, G>(
    table: Map<(Seq<char>, Seq<char>), EndpointView<H, G>>,
    a: Seq<EndpointView<H, G>>,
    b: Seq<EndpointView<H, G>>,
)
    ensures
        register_all(table, a + b) == register_all(register_all(table, a), b),
    decreases b.len(),
{
    if b.len() == 0 {
        assert(a + b =~= a);
    } else {
        lemma_register_concat(table, a, b.drop_last());
        assert((a + b).drop_last() =~= a + b.drop_last());
        assert((a + b).last() == b.last());
    }
}

/// The routes of a table of endpoints whose keys are distinct.
pub open spec fn table_of<H, G>(es: Seq<Endpoint<H, G>>) -> Map<
    (Seq<char>, Seq<char>),
    EndpointView<H, G>,
> {
    Map::new(
        |k: (Seq<char>, Seq<char>)| exists|i: int| 0 <= i < es.len() && key_of(#[trigger] es[i]@) == k,
        |k: (Seq<char>, Seq<char>)| es[choose|i: int| 0 <= i < es.len() && key_of(#[trigger] es[i]@) == k]@,
    )
}

pub open spec fn distinct_keys<H, G>(es: Seq<Endpoint<H, G>>) -> bool {
    forall|i: int, j: int|
        0 <= i < es.len() && 0 <= j < es.len() && i != j ==> key_of(#[trigger] es[i]@) != key_of(
            #[trigger] es[j]@,
        )
}

proof fn lemma_table_at<H, G>(es: Seq<Endpoint<H, G>>, i: int)
    requires
        distinct_keys(es),
        0 <= i < es.len(),
    ensures
        table_of(es).contains_key(key_of(es[i]@)),
        table_of(es)[key_of(es[i]@)] == es[i]@,
{
    let k = key_of(es[i]@);
    assert(table_of(es).dom().contains(k));
    let j = choose|j: int| 0 <= j < es.len() && key_of(#[trigger] es[j]@) == k;
    assert(j == i);
}

proof fn lemma_table_update<H, G>(es: Seq<Endpoint<H, G>>, i: int, e: Endpoint<H, G>)
    requires
        distinct_keys(es),
        0 <= i < es.len(),
        key_of(es[i]@) == key_of(e@),
    ensures
        distinct_keys(es.update(i, e)),
        table_of(es.update(i, e)) == table_of(es).insert(key_of(e@), e@),
{
    let u = es.update(i, e);
    assert forall|a: int, b: int|
        0 <= a < u.len() && 0 <= b < u.len() && a != b implies key_of(#[trigger] u[a]@) != key_of(
        #[trigger] u[b]@,
    ) by {
        if a != i && b != i {
            assert(u[a] == es[a] && u[b] == es[b]);
        } else if a == i {
            assert(u[b] == es[b]);
        } else {
            assert(u[a] == es[a]);
        }
    }
    let m = table_of(es).insert(key_of(e@), e@);
    assert forall|k: (Seq<char>, Seq<char>)| #[trigger] table_of(u).contains_key(k) <==> m.contains_key(k) by {
        if table_of(u).contains_key(k) {
            let j = choose|j: int| 0 <= j < u.len() && key_of(#[trigger] u[j]@) == k;
            if j != i {
                assert(u[j] == es[j]);
            }
        }
        if m.contains_key(k) && k != key_of(e@) {
            let j = choose|j: int| 0 <= j < es.len() && key_of(#[trigger] es[j]@) == k;
            assert(u[j] == es[j]);
        }
        if k == key_of(e@) {
            assert(key_of(u[i]@) == k);
        }
    }
    assert forall|k: (Seq<char>, Seq<char>)| table_of(u).contains_key(k) implies #[trigger] table_of(u)[k] == m[k] by {
        let j = choose|j: int| 0 <= j < u.len() && key_of(#[trigger] u[j]@) == k;
        lemma_table_at(u, j);
        if j == i {
        } else {
            assert(u[j] == es[j]);
            lemma_table_at(es, j);
        }
    }
    assert(table_of(u) =~= m);
}

proof fn lemma_table_push<H, G>(es: Seq<Endpoint<H, G>>, e: Endpoint<H, G>)
    requires
        distinct_keys(es),
        forall|i: int| 0 <= i < es.len() ==> key_of(#[trigger] es[i]@) != key_of(e@),
    ensures
        distinct_keys(es.push(e)),
        table_of(es.push(e)) == table_of(es).insert(key_of(e@), e@),
{
    let u = es.push(e);
    let n = es.len() as int;
    assert forall|a: int, b: int|
        0 <= a < u.len() && 0 <= b < u.len() && a != b implies key_of(#[trigger] u[a]@) != key_of(
        #[trigger] u[b]@,
    ) by {
        if a < n && b < n {
            assert(u[a] == es[a] && u[b] == es[b]);
        } else if a < n {
            assert(u[a] == es[a]);
        } else {
            assert(u[b] == es[b]);
        }
    }
    let m = table_of(es).insert(key_of(e@), e@);
    assert forall|k: (Seq<char>, Seq<char>)| #[trigger] table_of(u).contains_key(k) <==> m.contains_key(k) by {
        if table_of(u).contains_key(k) {
            let j = choose|j: int| 0 <= j < u.len() && key_of(#[trigger] u[j]@) == k;
            if j != n {
                assert(u[j] == es[j]);
            }
        }
        if m.contains_key(k) && k != key_of(e@) {
            let j = choose|j: int| 0 <= j < es.len() && key_of(#[trigger] es[j]@) == k;
            assert(u[j] == es[j]);
        }
        if k == key_of(e@) {
            assert(key_of(u[n]@) == k);
        }
    }
    assert forall|k: (Seq<char>, Seq<char>)| table_of(u).contains_key(k) implies #[trigger] table_of(u)[k] == m[k] by {
        let j = choose|j: int| 0 <= j < u.len() && key_of(#[trigger] u[j]@) == k;
        lemma_table_at(u, j);
        if j != n {
            assert(u[j] == es[j]);
            lemma_table_at(es, j);
        }
    }
    assert(table_of(u) =~= m);
}

/// The server: where it listens, how many workers run requests, and the
/// routes it dispatches to.
pub struct Packcake<H, G> {
    port: usize,
    endpoints: Vec<Endpoint<H, G>>,
    thread_pool_size: usize,
    do_print: bool,
}

impl<H, G> Packcake<H, G> {
    #[verifier::type_invariant]
    spec fn keys_distinct(&self) -> bool {
        distinct_keys(self.endpoints@)
    }

    /// The registered routes, by method and exact path.
    pub closed spec fn routes(self) -> Map<(Seq<char>, Seq<char>), EndpointView<H, G>> {
        table_of(self.endpoints@)
    }

    pub closed spec fn port_spec(self) -> usize {
        self.port
    }

    pub closed spec fn pool_size_spec(self) -> usize {
        self.thread_pool_size
    }

    pub closed spec fn debug_spec(self) -> bool {
        self.do_print
    }
}

impl<H: Copy, G: Copy> Packcake<H, G> {
    /// A server on port 2468 with `threads` workers and no routes.
    pub fn new(threads: usize) -> (r: Packcake<H, G>)
        ensures
            r.routes() == Map::<(Seq<char>, Seq<char>), EndpointView<H, G>>::empty(),
            r.port_spec() == 2468,
            r.pool_size_spec() == threads,
            !r.debug_spec(),
    {
        let r = Packcake { port: 2468, endpoints: Vec::new(), thread_pool_size: threads, do_print: false };
        assert(r.routes() =~= Map::<(Seq<char>, Seq<char>), EndpointView<H, G>>::empty());
        r
    }

    /// Registers `endpoint`, replacing the route with the same method and
    /// path.
    pub fn add_endpoint(&mut self, endpoint: Endpoint<H, G>)
        ensures
            final(self).routes() == old(self).routes().insert(key_of(endpoint@), endpoint@),
            final(self).port_spec() == old(self).port_spec(),
            final(self).pool_size_spec() == old(self).pool_size_spec(),
            final(self).debug_spec() == old(self).debug_spec(),
    {
        proof {
            use_type_invariant(&*self);
        }
        let ghost es = self.endpoints@;
        let found = self.position(&endpoint.method, &endpoint.uri);
        let mut endpoints: Vec<Endpoint<H, G>> = Vec::new();
        std::mem::swap(&mut endpoints, &mut self.endpoints);
        match found {
            Some(i) => {
                proof {
                    lemma_table_update(es, i as int, endpoint);
                }
                endpoints.set(i, endpoint);
            },
            None => {
                proof {
                    lemma_table_push(es, endpoint);
                }
                endpoints.push(endpoint);
            },
        }
        self.endpoints = endpoints;
    }

    /// The endpoint registered for `method` and exactly `uri`.
    pub fn find(&self, method: &str, uri: &str) -> (r: Option<&Endpoint<H, G>>)
        ensures
            match r {
                Some(e) => self.routes().contains_key((method@, uri@)) && self.routes()[(
                    method@,
                    uri@,
                )] == e@,
                None => !self.routes().contains_key((method@, uri@)),
            },
    {
        proof {
            use_type_invariant(self);
        }
        let m = method.to_owned();
        let u = uri.to_owned();
        match self.position(&m, &u) {
            Some(i) => {
                proof {
                    lemma_table_at(self.endpoints@, i as int);
                }
                Some(&self.endpoints[i])
            },
            None => None,
        }
    }

    /// Where the endpoint for `method` and `uri` stands in the table.
    fn position(&self, method: &String, uri: &String) -> (r: Option<usize>)
        ensures
            match r {
                Some(i) => i < self.endpoints@.len() && key_of(self.endpoints@[i as int]@) == (
                    method@,
                    uri@,
                ),
                None => forall|j: int|
                    0 <= j < self.endpoints@.len() ==> key_of(#[trigger] self.endpoints@[j]@) != (
                        method@,
                        uri@,
                    ),
            },
    {
        let mut i: usize = 0;
        while i < self.endpoints.len()
            invariant
                i <= self.endpoints.len(),
                forall|j: int| 0 <= j < i ==> key_of(#[trigger] self.endpoints@[j]@) != (method@, uri@),
            decreases self.endpoints.len() - i,
        {
            if self.endpoints[i].method == *method && self.endpoints[i].uri == *uri {
                return Some(i);
            }
            i = i + 1;
        }
        None
    }

    /// Registers every endpoint that `groups` and `endpoints` hold, under
    /// `prefix` and `chain`, in the order of `flat_groups` then
    /// `placed_all`.
    fn place(
        &mut self,
        prefix: &str,
        chain: &Vec<Middleware<G>>,
        groups: &Vec<Group<H, G>>,
        endpoints: &Vec<Endpoint<H, G>>,
    )
        ensures
            final(self).routes() == register_all(
                old(self).routes(),
                flat_groups(prefix@, chain@, groups@) + placed_all(prefix@, chain@, endpoints@),
            ),
            final(self).port_spec() == old(self).port_spec(),
            final(self).pool_size_spec() == old(self).pool_size_spec(),
            final(self).debug_spec() == old(self).debug_spec(),
        decreases groups@,
    {
        let ghost start = self.routes();
        let mut i: usize = 0;
        assert(groups@.subrange(0, 0) =~= Seq::<Group<H, G>>::empty());
        while i < groups.len()
            invariant
                i <= groups.len(),
                self.routes() == register_all(start, flat_groups(prefix@, chain@, groups@.subrange(0, i as int))),
                self.port_spec() == old(self).port_spec(),
                self.pool_size_spec() == old(self).pool_size_spec(),
                self.debug_spec() == old(self).debug_spec(),
            decreases groups.len() - i,
        {
            let g = &groups[i];
            let p = concat(prefix, g.uri.as_str());
            let c = join_chain(chain, &g.middleware);
            let ghost before = self.routes();
            proof {
                assert(decreases_to!(groups@ => groups@[i as int]));
                assert(decreases_to!(groups@[i as int] => groups@[i as int].groups));
                assert(decreases_to!(groups@[i as int].groups => groups@[i as int].groups@));
            }
            self.place(p.as_str(), &c, &g.groups, &g.endpoints);
            proof {
                let sub = groups@.subrange(0, i + 1);
                assert(sub.drop_last() =~= groups@.subrange(0, i as int));
                assert(sub.last() == *g);
                let x = flat_groups(prefix@, chain@, groups@.subrange(0, i as int));
                let y = flat_groups(p@, c@, g.groups@);
                let z = placed_all(p@, c@, g.endpoints@);
                lemma_register_concat(start, x, y + z);
                assert(x + y + z =~= x + (y + z));
            }
            i = i + 1;
        }
        assert(groups@.subrange(0, i as int) =~= groups@);
        let ghost mid = self.routes();
        let mut j: usize = 0;
        assert(endpoints@.subrange(0, 0) =~= Seq::<Endpoint<H, G>>::empty());
        assert(placed_all(prefix@, chain@, endpoints@.subrange(0, 0)) =~= Seq::<EndpointView<H, G>>::empty());
        while j < endpoints.len()
            invariant
                j <= endpoints.len(),
                self.routes() == register_all(mid, placed_all(prefix@, chain@, endpoints@.subrange(0, j as int))),
                self.port_spec() == old(self).port_spec(),
                self.pool_size_spec() == old(self).pool_size_spec(),
                self.debug_spec() == old(self).debug_spec(),
            decreases endpoints.len() - j,
        {
            let e = &endpoints[j];
            let placed_e = Endpoint {
                method: e.method.clone(),
                uri: concat(prefix, e.uri.as_str()),
                handler: e.handler,
                middleware: join_chain(chain, &e.middleware),
            };
            assert(placed_e@ == placed(prefix@, chain@, e@));
            proof {
                let pa = placed_all(prefix@, chain@, endpoints@.subrange(0, j + 1));
                let pb = placed_all(prefix@, chain@, endpoints@.subrange(0, j as int));
                assert(pa.drop_last() =~= pb);
                assert(pa.last() == placed(prefix@, chain@, e@));
            }
            self.add_endpoint(placed_e);
            j = j + 1;
        }
        assert(endpoints@.subrange(0, j as int) =~= endpoints@);
        proof {
            lemma_register_concat(
                start,
                flat_groups(prefix@, chain@, groups@),
                placed_all(prefix@, chain@, endpoints@),
            );
        }
    }
}


impl<H: Copy, G: Copy> Packcake<H, G> {
    /// Sets the port to listen on.
    pub fn port(self, port: usize) -> (r: Packcake<H, G>)
        ensures
            r.port_spec() == port,
            r.routes() == self.routes(),
            r.pool_size_spec() == self.pool_size_spec(),
            r.debug_spec() == self.debug_spec(),
    {
        let mut app = self;
        proof {
            use_type_invariant(&app);
        }
        app.port = port;
        app
    }

    /// Turns on diagnostic output.
    pub fn debug(self) -> (r: Packcake<H, G>)
        ensures
            r.debug_spec(),
            r.routes() == self.routes(),
            r.port_spec() == self.port_spec(),
            r.pool_size_spec() == self.pool_size_spec(),
    {
        let mut app = self;
        proof {
            use_type_invariant(&app);
        }
        app.do_print = true;
        app
    }

    /// Registers a `GET` route at `uri`.
    pub fn get(self, uri: &str, handler: H) -> (r: Packcake<H, G>)
        ensures
            r.routes() == self.routes().insert(
                (GET@, uri@),
                EndpointView { method: GET@, uri: uri@, handler, middleware: Seq::empty() },
            ),
            r.port_spec() == self.port_spec(),
            r.pool_size_spec() == self.pool_size_spec(),
            r.debug_spec() == self.debug_spec(),
    {
        let endpoint = get(uri, handler);
        let mut app = self;
        app.add_endpoint(endpoint);
        app
    }

    /// Registers a `POST` route at `uri`.
    pub fn post(self, uri: &str, handler: H) -> (r: Packcake<H, G>)
        ensures
            r.routes() == self.routes().insert(
                (POST@, uri@),
                EndpointView { method: POST@, uri: uri@, handler, middleware: Seq::empty() },
            ),
            r.port_spec() == self.port_spec(),
            r.pool_size_spec() == self.pool_size_spec(),
            r.debug_spec() == self.debug_spec(),
    {
        let endpoint = post(uri, handler);
        let mut app = self;
        app.add_endpoint(endpoint);
        app
    }

    /// Registers a `PUT` route at `uri`.
    pub fn put(self, uri: &str, handler: H) -> (r: Packcake<H, G>)
        ensures
            r.routes() == self.routes().insert(
                (PUT@, uri@),
                EndpointView { method: PUT@, uri: uri@, handler, middleware: Seq::empty() },
            ),
            r.port_spec() == self.port_spec(),
            r.pool_size_spec() == self.pool_size_spec(),
            r.debug_spec() == self.debug_spec(),
    {
        let endpoint = put(uri, handler);
        let mut app = self;
        app.add_endpoint(endpoint);
        app
    }

    /// Registers a `PATCH` route at `uri`.
    pub fn patch(self, uri: &str, handler: H) -> (r: Packcake<H, G>)
        ensures
            r.routes() == self.routes().insert(
                (PATCH@, uri@),
                EndpointView { method: PATCH@, uri: uri@, handler, middleware: Seq::empty() },
            ),
            r.port_spec() == self.port_spec(),
            r.pool_size_spec() == self.pool_size_spec(),
            r.debug_spec() == self.debug_spec(),
    {
        let endpoint = patch(uri, handler);
        let mut app = self;
        app.add_endpoint(endpoint);
        app
    }

    /// Registers a `DELETE` route at `uri`.
    pub fn delete(self, uri: &str, handler: H) -> (r: Packcake<H, G>)
        ensures
            r.routes() == self.routes().insert(
                (DELETE@, uri@),
                EndpointView { method: DELETE@, uri: uri@, handler, middleware: Seq::empty() },
            ),
            r.port_spec() == self.port_spec(),
            r.pool_size_spec() == self.pool_size_spec(),
            r.debug_spec() == self.debug_spec(),
    {
        let endpoint = delete(uri, handler);
        let mut app = self;
        app.add_endpoint(endpoint);
        app
    }

    /// Registers everything under the prefix `uri`: the endpoints of each
    /// group in `groups`, recursively, then `endpoints`. Paths are the
    /// prefixes joined in order; middleware chains are the outer middleware
    /// first, `middleware` outermost.
    pub fn path(
        &mut self,
        uri: &str,
        middleware: Option<Vec<Middleware<G>>>,
        groups: Option<Vec<Group<H, G>>>,
        endpoints: Option<Vec<Endpoint<H, G>>>,
    ) -> (r: &Packcake<H, G>)
        ensures
            final(self).routes() == register_all(
                old(self).routes(),
                flat_groups(uri@, or_empty(middleware), or_empty(groups)) + placed_all(
                    uri@,
                    or_empty(middleware),
                    or_empty(endpoints),
                ),
            ),
            final(self).port_spec() == old(self).port_spec(),
            final(self).pool_size_spec() == old(self).pool_size_spec(),
            final(self).debug_spec() == old(self).debug_spec(),
    {
        let middleware = match middleware {
            Some(m) => m,
            None => Vec::new(),
        };
        let groups = match groups {
            Some(g) => g,
            None => Vec::new(),
        };
        let endpoints = match endpoints {
            Some(e) => e,
            None => Vec::new(),
        };
        self.place(uri, &middleware, &groups, &endpoints);
        self
    }

    /// The port to listen on.
    pub fn listen_port(&self) -> (r: usize)
        ensures
            r == self.port_spec(),
    {
        self.port
    }

    /// The number of workers.
    pub fn pool_size(&self) -> (r: usize)
        ensures
            r == self.pool_size_spec(),
    {
        self.thread_pool_size
    }

    /// Whether diagnostic output is on.
    pub fn is_debug(&self) -> (r: bool)
        ensures
            r == self.debug_spec(),
    {
        self.do_print
    }

    /// The endpoint that serves `request`, looked up by its method and path.
    pub fn route(&self, request: &Request) -> (r: Option<&Endpoint<H, G>>)
        ensures
            match r {
                Some(e) => self.routes().contains_key((request@.method, request@.uri))
                    && self.routes()[(request@.method, request@.uri)] == e@,
                None => !self.routes().contains_key((request@.method, request@.uri)),
            },
    {
        self.find(request.method().as_str(), request.uri().as_str())
    }
}

/// The body sent for a request whose method and path have no route.
pub open spec fn unmapped_body() -> Seq<char> {
    "Route is not mapped"@
}

/// Answers a request that no route matches: status BadRequest and a fixed
/// body.
pub fn reject_unmapped(response: &mut Response)
    ensures
        final(response)@.status == StatusCode::BadRequest,
        final(response)@.headers == crate::response::sent_headers(
            old(response)@.headers,
            19,
        ),
        final(response)@.sent == old(response)@.sent + crate::response::wire(
            StatusCode::BadRequest,
            final(response)@.headers,
            unmapped_body(),
        ),
{
    response.status(StatusCode::BadRequest);
    let body = "Route is not mapped";
    proof {
        reveal_strlit("Route is not mapped");
        vstd::string::is_ascii_spec_bytes(body);
    }
    assert(body.len() == 19);
    response.send(body);
}

/// A group with any of its parts.
pub fn group<H: Copy, G: Copy>(
    uri: &str,
    middleware: Option<Vec<Middleware<G>>>,
    groups: Option<Vec<Group<H, G>>>,
    endpoints: Option<Vec<Endpoint<H, G>>>,
) -> (r: Group<H, G>)
    ensures
        r.prefix() == uri@,
        r.chain() == or_empty(middleware),
        r.subgroups() == or_empty(groups),
        r.members() == or_empty(endpoints),
{
    Group::new(uri, middleware, groups, endpoints)
}

/// A group of endpoints.
pub fn group_e<H: Copy, G: Copy>(uri: &str, endpoints: Vec<Endpoint<H, G>>) -> (r: Group<H, G>)
    ensures
        r.prefix() == uri@,
        r.chain() == Seq::<Middleware<G>>::empty(),
        r.subgroups() == Seq::<Group<H, G>>::empty(),
        r.members() == endpoints@,
{
    Group::new(uri, None, None, Some(endpoints))
}

/// A group with middleware only.
pub fn group_m<H: Copy, G: Copy>(uri: &str, middleware: Vec<Middleware<G>>) -> (r: Group<H, G>)
    ensures
        r.prefix() == uri@,
        r.chain() == middleware@,
        r.subgroups() == Seq::<Group<H, G>>::empty(),
        r.members() == Seq::<Endpoint<H, G>>::empty(),
{
    Group::new(uri, Some(middleware), None, None)
}

/// A group of groups.
pub fn group_g<H: Copy, G: Copy>(uri: &str, groups: Vec<Group<H, G>>) -> (r: Group<H, G>)
    ensures
        r.prefix() == uri@,
        r.chain() == Seq::<Middleware<G>>::empty(),
        r.subgroups() == groups@,
        r.members() == Seq::<Endpoint<H, G>>::empty(),
{
    Group::new(uri, None, Some(groups), None)
}

/// A group of groups behind middleware.
pub fn group_mg<H: Copy, G: Copy>(
    uri: &str,
    middleware: Vec<Middleware<G>>,
    groups: Vec<Group<H, G>>,
) -> (r: Group<H, G>)
    ensures
        r.prefix() == uri@,
        r.chain() == middleware@,
        r.subgroups() == groups@,
        r.members() == Seq::<Endpoint<H, G>>::empty(),
{
    Group::new(uri, Some(middleware), Some(groups), None)
}

/// A group of endpoints behind middleware.
pub fn group_me<H: Copy, G: Copy>(
    uri: &str,
    middleware: Vec<Middleware<G>>,
    endpoints: Vec<Endpoint<H, G>>,
) -> (r: Group<H, G>)
    ensures
        r.prefix() == uri@,
        r.chain() == middleware@,
        r.subgroups() == Seq::<Group<H, G>>::empty(),
        r.members() == endpoints@,
{
    Group::new(uri, Some(middleware), None, Some(endpoints))
}

/// A group of groups and endpoints.
pub fn group_ge<H: Copy, G: Copy>(
    uri: &str,
    groups: Vec<Group<H, G>>,
    endpoints: Vec<Endpoint<H, G>>,
) -> (r: Group<H, G>)
    ensures
        r.prefix() == uri@,
        r.chain() == Seq::<Middleware<G>>::empty(),
        r.subgroups() == groups@,
        r.members() == endpoints@,
{
    Group::new(uri, None, Some(groups), Some(endpoints))
}

/// Registering endpoints one after another keeps, for each method and path,
/// the endpoint registered last for it; a method and path never registered
/// has no route.
pub proof fn law_last_registration_wins<H, G>(
    es: Seq<EndpointView<H, G>>,
    key: (Seq<char>, Seq<char>),
)
    ensures
        register_all(Map::empty(), es).contains_key(key) <==> exists|i: int|
            0 <= i < es.len() && key_of(#[trigger] es[i]) == key,
        forall|i: int|
            0 <= i < es.len() && key_of(#[trigger] es[i]) == key && (forall|j: int|
                i < j < es.len() ==> key_of(#[trigger] es[j]) != key) ==> register_all(
                Map::empty(),
                es,
            )[key] == es[i],
    decreases es.len(),
{
    if es.len() > 0 {
        let prev = es.drop_last();
        law_last_registration_wins(prev, key);
        let n = es.len() - 1;
        if key_of(es[n]) != key {
            assert forall|i: int| 0 <= i < prev.len() && key_of(#[trigger] prev[i]) == key
                implies exists|i: int| 0 <= i < es.len() && key_of(#[trigger] es[i]) == key by {
                assert(es[i] == prev[i]);
            }
            assert forall|i: int| 0 <= i < es.len() && key_of(#[trigger] es[i]) == key
                implies exists|i: int| 0 <= i < prev.len() && key_of(#[trigger] prev[i]) == key by {
                assert(i < n);
                assert(prev[i] == es[i]);
            }
            assert forall|i: int|
                0 <= i < es.len() && key_of(#[trigger] es[i]) == key && (forall|j: int|
                    i < j < es.len() ==> key_of(#[trigger] es[j]) != key) implies register_all(
                Map::empty(),
                es,
            )[key] == es[i] by {
                assert(i < n);
                assert(prev[i] == es[i]);
                assert forall|j: int| i < j < prev.len() implies key_of(#[trigger] prev[j]) != key by {
                    assert(prev[j] == es[j]);
                }
            }
        } else {
            assert(key_of(es[n]) == key);
        }
    }
}

/// Flattening is associative: a group that holds only nested groups
/// registers exactly what those groups register under the joined prefix and
/// the joined middleware chain.
pub proof fn law_group_nesting<H, G>(
    prefix: Seq<char>,
    chain: Seq<Middleware<G>>,
    outer: Group<H, G>,
)
    requires
        outer.members().len() == 0,
    ensures
        flat_groups(prefix, chain, seq![outer]) == flat_groups(
            prefix + outer.prefix(),
            chain + outer.chain(),
            outer.subgroups(),
        ),
{
    let s = seq![outer];
    assert(s.drop_last() =~= Seq::<Group<H, G>>::empty());
    let p = prefix + outer.prefix();
    let c = chain + outer.chain();
    assert(placed_all(p, c, outer.members()) =~= Seq::<EndpointView<H, G>>::empty());
    assert(flat_groups(prefix, chain, s.drop_last()) =~= Seq::<EndpointView<H, G>>::empty());
    assert(flat_groups(prefix, chain, s) =~= flat_groups(p, c, outer.subgroups()));
}

/// A group `outer` holding only a group `inner` that holds only the endpoint
/// `e` registers the same entry as registering `e` directly at the joined
/// path, behind the joined middleware chain.
pub proof fn law_nested_endpoint<H, G>(
    table: Map<(Seq<char>, Seq<char>), EndpointView<H, G>>,
    prefix: Seq<char>,
    chain: Seq<Middleware<G>>,
    outer: Group<H, G>,
    inner: Group<H, G>,
    e: Endpoint<H, G>,
)
    requires
        outer.members().len() == 0,
        outer.subgroups() == seq![inner],
        inner.subgroups().len() == 0,
        inner.members() == seq![e],
    ensures
        ({
            let direct = placed(
                prefix + outer.prefix() + inner.prefix(),
                chain + outer.chain() + inner.chain(),
                e@,
            );
            &&& direct.uri == prefix + outer.prefix() + inner.prefix() + e@.uri
            &&& direct.middleware == chain + outer.chain() + inner.chain() + e@.middleware
            &&& register_all(table, flat_groups(prefix, chain, seq![outer])) == table.insert(
                key_of(direct),
                direct,
            )
        }),
{
    law_group_nesting(prefix, chain, outer);
    let p = prefix + outer.prefix();
    let c = chain + outer.chain();
    let p2 = p + inner.prefix();
    let c2 = c + inner.chain();
    assert(flat_groups(p2, c2, inner.subgroups()) =~= Seq::<EndpointView<H, G>>::empty());
    let s = seq![inner];
    assert(s.drop_last() =~= Seq::<Group<H, G>>::empty());
    assert(flat_groups(p, c, s.drop_last()) =~= Seq::<EndpointView<H, G>>::empty());
    assert(placed_all(p2, c2, inner.members()) =~= seq![placed(p2, c2, e@)]);
    assert(s =~= outer.subgroups());
    let flat = flat_groups(p, c, s);
    assert(flat =~= seq![placed(p2, c2, e@)]);
    let direct = placed(p2, c2, e@);
    assert(seq![direct].drop_last() =~= Seq::<EndpointView<H, G>>::empty());
    assert(flat_groups(prefix, chain, seq![outer]) == seq![direct]);
    assert(register_all(table, seq![direct]) == register_all(
        table,
        seq![direct].drop_last(),
    ).insert(key_of(direct), direct));
    assert(register_all(table, seq![direct].drop_last()) == table);
    assert(direct.uri =~= prefix + outer.prefix() + inner.prefix() + e@.uri);
    assert(direct.middleware =~= chain + outer.chain() + inner.chain() + e@.middleware);
}

/// Flattening one group registers its nested groups, then its own
/// endpoints, under its joined prefix and its joined middleware chain.
pub proof fn law_one_group<H, G>(prefix: Seq<char>, chain: Seq<Middleware<G>>, g: Group<H, G>)
    ensures
        flat_groups(prefix, chain, seq![g]) == flat_groups(
            prefix + g.prefix(),
            chain + g.chain(),
            g.subgroups(),
        ) + placed_all(prefix + g.prefix(), chain + g.chain(), g.members()),
{
    let s = seq![g];
    assert(s.drop_last() =~= Seq::<Group<H, G>>::empty());
    let p = prefix + g.prefix();
    let c = chain + g.chain();
    assert(flat_groups(prefix, chain, s.drop_last()) =~= Seq::<EndpointView<H, G>>::empty());
    assert(flat_groups(prefix, chain, s) =~= flat_groups(p, c, g.subgroups()) + placed_all(
        p,
        c,
        g.members(),
    ));
}

/// Registering a group `g` of endpoints under `prefix` and `chain` gives the
/// same table as registering its endpoints directly at the joined prefix
/// behind the joined chain: what `path` does in each case.
pub proof fn law_group_as_direct_path<H, G>(
    table: Map<(Seq<char>, Seq<char>), EndpointView<H, G>>,
    prefix: Seq<char>,
    chain: Seq<Middleware<G>>,
    g: Group<H, G>,
)
    requires
        g.subgroups().len() == 0,
    ensures
        register_all(
            table,
            flat_groups(prefix, chain, seq![g]) + placed_all(prefix, chain, Seq::<Endpoint<H, G>>::empty()),
        ) == register_all(
            table,
            flat_groups(prefix + g.prefix(), chain + g.chain(), Seq::<Group<H, G>>::empty())
                + placed_all(prefix + g.prefix(), chain + g.chain(), g.members()),
        ),
{
    law_one_group(prefix, chain, g);
    let p = prefix + g.prefix();
    let c = chain + g.chain();
    assert(g.subgroups() =~= Seq::<Group<H, G>>::empty());
    assert(placed_all(prefix, chain, Seq::<Endpoint<H, G>>::empty()) =~= Seq::<EndpointView<H, G>>::empty());
    assert(flat_groups(prefix, chain, seq![g]) + placed_all(prefix, chain, Seq::<Endpoint<H, G>>::empty())
        =~= flat_groups(p, c, Seq::<Group<H, G>>::empty()) + placed_all(p, c, g.members()));
}

/// One registration: the endpoint just registered is what its method and
/// path now find, every other method and path finds what it found before,
/// and the set of registered pairs gains exactly that one.
pub proof fn law_registration_replaces<H, G>(
    table: Map<(Seq<char>, Seq<char>), EndpointView<H, G>>,
    e: EndpointView<H, G>,
)
    ensures
        register_all(table, seq![e]).contains_key(key_of(e)),
        register_all(table, seq![e])[key_of(e)] == e,
        register_all(table, seq![e]).dom() == table.dom().insert(key_of(e)),
        forall|k: (Seq<char>, Seq<char>)|
            k != key_of(e) ==> (#[trigger] register_all(table, seq![e]).contains_key(k)
                <==> table.contains_key(k)) && (table.contains_key(k) ==> register_all(
                table,
                seq![e],
            )[k] == table[k]),
{
    let s1 = seq![e];
    assert(s1.drop_last() =~= Seq::<EndpointView<H, G>>::empty());
    assert(s1.last() == e);
    assert(register_all(table, s1.drop_last()) == table);
    assert(register_all(table, s1) == register_all(table, s1.drop_last()).insert(
        key_of(s1.last()),
        s1.last(),
    ));
    assert(register_all(table, s1).dom() =~= table.dom().insert(key_of(e)));
}

} // verus!
