use packcake::{
    after_guard, first_step, Next,
    delete, get, group, group_e, group_g, group_ge, group_m, group_me, group_mg, parse_head, patch,
    post, put, reject_unmapped, Endpoint, Guard, Handler, Middleware, Packcake, Request, Response,
    StatusCode,
};

/// Appends `tag` to the `Trace` header, so a test sees what ran and in which order.
fn trace(res: &mut Response, tag: &str) {
    let prev = res.get_header("Trace").cloned().unwrap_or_default();
    res.header("Trace", &format!("{prev}{tag}"));
}

#[derive(Clone, Copy, Debug, PartialEq)]
struct Step {
    tag: &'static str,
    pass: bool,
}

impl Guard for Step {
    fn check(&self, _request: &Request, response: &mut Response) -> bool {
        trace(response, self.tag);
        if !self.pass {
            response.status(StatusCode::BadRequest);
            response.send("denied");
        }
        self.pass
    }
}

#[derive(Clone, Copy, Debug, PartialEq)]
enum Reply {
    Text(&'static str),
    Json(&'static str),
}

impl Handler for Reply {
    fn handle(&self, _request: &Request, response: &mut Response) {
        trace(response, "H");
        match self {
            Reply::Text(t) => response.send(t),
            Reply::Json(j) => response.json(j),
        }
    }
}

type App = Packcake<Reply, Step>;

fn mw(tag: &'static str) -> Middleware<Step> {
    Middleware::new(Step { tag, pass: true })
}

fn request(line: &str) -> Request {
    Request::new(line, packcake::Fields::new(), String::new()).unwrap()
}

#[test]
fn find_returns_last_registration() {
    let app: App = Packcake::new(2).get("/x", Reply::Text("one")).get("/x", Reply::Text("two"));
    let e = app.find("GET", "/x").unwrap();
    assert_eq!(e.handler(), Reply::Text("two"));
    assert!(app.find("POST", "/x").is_none());
    assert!(app.find("GET", "/y").is_none());
}

#[test]
fn each_verb_registers_its_method() {
    let app: App = Packcake::new(1)
        .get("/r", Reply::Text("g"))
        .post("/r", Reply::Text("p"))
        .put("/r", Reply::Text("u"))
        .patch("/r", Reply::Text("a"))
        .delete("/r", Reply::Text("d"));
    assert_eq!(app.find("GET", "/r").unwrap().handler(), Reply::Text("g"));
    assert_eq!(app.find("POST", "/r").unwrap().handler(), Reply::Text("p"));
    assert_eq!(app.find("PUT", "/r").unwrap().handler(), Reply::Text("u"));
    assert_eq!(app.find("PATCH", "/r").unwrap().handler(), Reply::Text("a"));
    assert_eq!(app.find("DELETE", "/r").unwrap().handler(), Reply::Text("d"));
}

#[test]
fn free_endpoint_builders() {
    let e: Endpoint<Reply, Step> = post("/p", Reply::Text("x"));
    assert_eq!(e.method(), "POST");
    assert_eq!(e.uri(), "/p");
    assert!(e.middleware().is_empty());
    let e: Endpoint<Reply, Step> = put("/p", Reply::Text("x"));
    assert_eq!(e.method(), "PUT");
    let e: Endpoint<Reply, Step> = patch("/p", Reply::Text("x"));
    assert_eq!(e.method(), "PATCH");
    let e: Endpoint<Reply, Step> = delete("/p", Reply::Text("x"));
    assert_eq!(e.method(), "DELETE");
}

#[test]
fn server_settings() {
    let app: App = Packcake::new(4);
    assert_eq!(app.listen_port(), 2468);
    assert_eq!(app.pool_size(), 4);
    assert!(!app.is_debug());
    let app = app.port(2121).debug();
    assert_eq!(app.listen_port(), 2121);
    assert!(app.is_debug());
}

#[test]
fn nested_group_equals_direct_registration() {
    let mut nested: App = Packcake::new(1);
    nested.path(
        "/a",
        Some(vec![mw("A")]),
        Some(vec![group("/b", Some(vec![mw("B")]), None, Some(vec![get("/c", Reply::Text("e"))]))]),
        None,
    );
    let e = nested.find("GET", "/a/b/c").unwrap();
    assert_eq!(e.handler(), Reply::Text("e"));
    assert_eq!(format!("{:?}", e.middleware()), format!("{:?}", vec![mw("A"), mw("B")]));
    assert!(nested.find("GET", "/a/b").is_none());
    assert!(nested.find("GET", "/c").is_none());

    let mut res = Response::new();
    let d = e.dispatch(&request("GET /a/b/c HTTP/1.1"), &mut res);
    assert_eq!(d.verdicts, vec![true, true]);
    assert!(d.handled);
    assert_eq!(res.get_header("Trace").map(|s| s.as_str()), Some("ABH"));
}

#[test]
fn group_shapes() {
    let mut app: App = Packcake::new(1);
    app.path(
        "/api",
        None,
        Some(vec![
            group_ge(
                "/v1",
                vec![group_mg(
                    "/p",
                    vec![mw("P")],
                    vec![group_e("/team", vec![get("", Reply::Text("t"))])],
                )],
                vec![get("", Reply::Text("docs"))],
            ),
            group_me("/m", vec![mw("M")], vec![post("/x", Reply::Text("x"))]),
            group_g("/g", vec![group_m("/only", vec![mw("O")])]),
        ]),
        Some(vec![put("/root", Reply::Text("r"))]),
    );
    assert_eq!(app.find("GET", "/api/v1").unwrap().handler(), Reply::Text("docs"));
    let team = app.find("GET", "/api/v1/p/team").unwrap();
    assert_eq!(format!("{:?}", team.middleware()), format!("{:?}", vec![mw("P")]));
    assert_eq!(format!("{:?}", app.find("POST", "/api/m/x").unwrap().middleware()), format!("{:?}", vec![mw("M")]));
    assert_eq!(app.find("PUT", "/api/root").unwrap().handler(), Reply::Text("r"));
    assert!(app.find("GET", "/api/g/only").is_none());
}

#[test]
fn middleware_short_circuits() {
    let chain = vec![
        Middleware::new(Step { tag: "1", pass: true }),
        Middleware::new(Step { tag: "2", pass: false }),
        Middleware::new(Step { tag: "3", pass: true }),
    ];
    let mut app: App = Packcake::new(1);
    app.path("", Some(chain), None, Some(vec![get("/x", Reply::Text("handled"))]));
    let e = app.find("GET", "/x").unwrap();
    let mut res = Response::new();
    let d = e.dispatch(&request("GET /x HTTP/1.1"), &mut res);
    assert_eq!(d.verdicts, vec![true, false]);
    assert!(!d.handled);
    assert_eq!(res.get_header("Trace").map(|s| s.as_str()), Some("12"));
    assert_eq!(res.get_status(), StatusCode::BadRequest);
    assert!(res.sent().ends_with("\r\n\r\ndenied"));
    assert!(!res.sent().contains("handled"));
}

#[test]
fn empty_chain_runs_handler() {
    let e: Endpoint<Reply, Step> = get("/x", Reply::Text("hi"));
    let mut res = Response::new();
    let d = e.dispatch(&request("GET /x HTTP/1.1"), &mut res);
    assert!(d.verdicts.is_empty());
    assert!(d.handled);
    assert_eq!(res.sent(), "HTTP/1.1 200 OK\r\nTrace: H\r\nContent-Length: 2\r\n\r\nhi");
}

#[test]
fn end_to_end_json_route() {
    let app: App = Packcake::new(4).get("/api/v1/user", Reply::Json("{\"message\":\"get_user\"}"));
    let head = parse_head("GET /api/v1/user HTTP/1.1\r\nHost: localhost\r\n\r\n").unwrap();
    let req = Request::new(&head.line, head.headers, String::new()).unwrap();
    let mut res = Response::new();
    let e = app.route(&req).unwrap();
    assert!(e.dispatch(&req, &mut res).handled);
    let out = res.sent();
    assert!(out.starts_with("HTTP/1.1 200 OK\r\n"));
    assert!(out.contains("\r\nContent-Type: Application/json\r\n"));
    assert!(out.ends_with("\r\n\r\n{\"message\":\"get_user\"}"));
}

#[test]
fn unmapped_route_gets_bad_request() {
    let app: App = Packcake::new(1).get("/a", Reply::Text("a"));
    let req = request("GET /b HTTP/1.1");
    assert!(app.route(&req).is_none());
    let mut res = Response::new();
    reject_unmapped(&mut res);
    assert!(res.sent().starts_with("HTTP/1.1 400 BAD REQUEST\r\n"));
}

#[test]
fn chain_steps() {
    assert_eq!(first_step(0), Next::Handle);
    assert_eq!(first_step(3), Next::Guard(0));
    assert_eq!(after_guard(0, 3, true), Next::Guard(1));
    assert_eq!(after_guard(1, 3, false), Next::Stop);
    assert_eq!(after_guard(2, 3, true), Next::Handle);
    assert_eq!(after_guard(2, 3, false), Next::Stop);
}

#[test]
fn all_guards_then_handler_in_order() {
    let chain = vec![mw("1"), mw("2"), mw("3")];
    let mut app: App = Packcake::new(1);
    app.path("", Some(chain), None, Some(vec![get("/x", Reply::Text("ok"))]));
    let mut res = Response::new();
    let d = app.find("GET", "/x").unwrap().dispatch(&request("GET /x HTTP/1.1"), &mut res);
    assert_eq!(d.verdicts, vec![true, true, true]);
    assert!(d.handled);
    assert_eq!(res.get_header("Trace").map(|s| s.as_str()), Some("123H"));
}

#[test]
fn add_endpoint_replaces_same_key() {
    let mut app: App = Packcake::new(1);
    app.add_endpoint(get("/k", Reply::Text("a")));
    app.add_endpoint(post("/k", Reply::Text("b")));
    app.add_endpoint(get("/k", Reply::Text("c")));
    assert_eq!(app.find("GET", "/k").unwrap().handler(), Reply::Text("c"));
    assert_eq!(app.find("POST", "/k").unwrap().handler(), Reply::Text("b"));
    assert!(app.find("PUT", "/k").is_none());
}

#[test]
fn group_equals_direct_path() {
    let mut nested: App = Packcake::new(1);
    nested.path(
        "/a",
        Some(vec![mw("A")]),
        Some(vec![group("/b", Some(vec![mw("B")]), None, Some(vec![get("", Reply::Text("h"))]))]),
        None,
    );
    let mut direct: App = Packcake::new(1);
    direct.path("/a/b", Some(vec![mw("A"), mw("B")]), None, Some(vec![get("", Reply::Text("h"))]));
    let n = nested.find("GET", "/a/b").unwrap();
    let d = direct.find("GET", "/a/b").unwrap();
    assert_eq!(n.handler(), d.handler());
    assert_eq!(format!("{:?}", n.middleware()), format!("{:?}", d.middleware()));
    assert_eq!(n.uri(), d.uri());
}
