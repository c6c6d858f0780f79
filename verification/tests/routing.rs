use rust_express::params::Params;
use rust_express::request::{parse_request_text, Request};
use rust_express::response::Response;
use rust_express::router::{
    classify, execute_handler, find_route, handle_method_not_allowed, handle_not_found, respond,
    Dispatch, EitherHandler, Method, Router,
};

type Handler = Box<dyn Fn(&Request) -> Response>;

const NOT_FOUND: &str =
    "HTTP/1.1 404 Not Found\r\nContent-type: application/json\r\n\r\n{\"error\":\"Page not found\"}";
const NOT_ALLOWED: &str = "HTTP/1.1 405 Method Not Allowed\r\nContent-type: application/json\r\n\r\n{\"error\":\"This method is not allowed\"}";

fn say(text: &'static str) -> Handler {
    Box::new(move |_| Response::new().text(text, 200))
}

fn wire(text: &str) -> String {
    format!(
        "HTTP/1.1 200 OK\r\nContent-Type: text/plain\r\nContent-Length: {}\r\n\r\n{}",
        text.len(),
        text
    )
}

fn request(method: &str, path: &str) -> Request {
    parse_request_text(&format!("{} {} HTTP/1.1\r\nHost: t\r\n\r\n", method, path))
}

#[test]
fn methods_are_told_apart() {
    assert_eq!(classify("GET"), Method::Get);
    assert_eq!(classify("POST"), Method::Post);
    assert_eq!(classify("PUT"), Method::Put);
    assert_eq!(classify("PATCH"), Method::Patch);
    assert_eq!(classify("DELETE"), Method::Delete);
    assert_eq!(classify("get"), Method::Unsupported);
    assert_eq!(classify("HEAD"), Method::Unsupported);
    assert_eq!(classify(""), Method::Unsupported);
}

#[test]
fn fixed_replies() {
    assert_eq!(handle_not_found(), NOT_FOUND);
    assert_eq!(handle_method_not_allowed(), NOT_ALLOWED);
}

#[test]
fn registered_handler_answers() {
    let mut router: Router<Handler, ()> = Router::new();
    router.get("/", say("root"));
    router.post("/", say("posted"));
    router.put("/thing", say("put"));
    router.patch("/thing", say("patched"));
    router.delete("/thing", say("deleted"));
    assert_eq!(respond(&router, &request("GET", "/")), Some(wire("root")));
    assert_eq!(respond(&router, &request("POST", "/")), Some(wire("posted")));
    assert_eq!(respond(&router, &request("PUT", "/thing")), Some(wire("put")));
    assert_eq!(respond(&router, &request("PATCH", "/thing")), Some(wire("patched")));
    assert_eq!(respond(&router, &request("DELETE", "/thing")), Some(wire("deleted")));
}

#[test]
fn unknown_path_is_not_found() {
    let mut router: Router<Handler, ()> = Router::new();
    router.get("/a", say("a"));
    assert_eq!(respond(&router, &request("GET", "/b")), Some(NOT_FOUND.to_string()));
    assert_eq!(respond(&router, &request("GET", "/a/")), Some(NOT_FOUND.to_string()));
    assert_eq!(respond(&router, &request("POST", "/a")), Some(NOT_FOUND.to_string()));
    assert_eq!(respond(&router, &request("GET", "/A")), Some(NOT_FOUND.to_string()));
    let empty: Router<Handler, ()> = Router::new();
    assert_eq!(respond(&empty, &request("DELETE", "/")), Some(NOT_FOUND.to_string()));
}

#[test]
fn unsupported_method_is_not_allowed() {
    let mut router: Router<Handler, ()> = Router::new();
    router.get("/", say("root"));
    assert_eq!(respond(&router, &request("HEAD", "/")), Some(NOT_ALLOWED.to_string()));
    assert_eq!(respond(&router, &request("OPTIONS", "/nowhere")), Some(NOT_ALLOWED.to_string()));
    assert_eq!(respond(&router, &request("get", "/")), Some(NOT_ALLOWED.to_string()));
}

#[test]
fn last_registration_wins() {
    let mut router: Router<Handler, ()> = Router::new();
    router.get("/", say("first"));
    router.get("/other", say("other"));
    router.get("/", say("second"));
    assert_eq!(respond(&router, &request("GET", "/")), Some(wire("second")));
    assert_eq!(respond(&router, &request("GET", "/other")), Some(wire("other")));
}

#[test]
fn two_routes_get_their_own_answers() {
    let mut router: Router<Handler, ()> = Router::new();
    router.get("/one", say("one"));
    router.get("/two", say("two"));
    let a = respond(&router, &request("GET", "/one"));
    let b = respond(&router, &request("GET", "/two"));
    assert_eq!(a, Some(wire("one")));
    assert_eq!(b, Some(wire("two")));
}

#[test]
fn awaited_handler_is_handed_out() {
    let mut router: Router<Handler, u8> = Router::new();
    router.get_async("/slow", 1);
    router.post_async("/slow", 2);
    router.put_async("/slow", 3);
    router.patch_async("/slow", 4);
    router.delete_async("/slow", 5);
    for (method, number) in [("GET", 1u8), ("POST", 2), ("PUT", 3), ("PATCH", 4), ("DELETE", 5)] {
        let req = request(method, "/slow");
        assert_eq!(respond(&router, &req), None);
        match router.handle_request(&req) {
            Dispatch::Invoke { handler: EitherHandler::Async(n), params } => {
                assert_eq!(*n, number);
                assert!(params.is_empty());
            }
            _ => panic!("the handler was not found"),
        }
    }
}

#[test]
fn pattern_segments_match_only_literally() {
    let mut router: Router<Handler, ()> = Router::new();
    router.get(
        "/users/:id/7",
        Box::new(|req: &Request| {
            Response::new().text(req.params.get("id").map(|s| s.as_str()).unwrap_or("none"), 200)
        }),
    );
    assert_eq!(respond(&router, &request("GET", "/users/5/7")), Some(NOT_FOUND.to_string()));
    assert_eq!(respond(&router, &request("GET", "/users/:id/7")), Some(wire("7")));
    match router.handle_request(&request("GET", "/users/:id/7")) {
        Dispatch::Invoke { params, .. } => {
            assert_eq!(params.len(), 1);
            assert_eq!(params.get("id").cloned(), Some("7".to_string()));
        }
        Dispatch::Reply(_) => panic!("the handler was not found"),
    }
}

#[test]
fn handler_sees_the_request() {
    let mut router: Router<Handler, ()> = Router::new();
    router.post(
        "/echo",
        Box::new(|req: &Request| {
            let mut base = Response::new();
            base.cookies.insert("seen".to_string(), req.host.clone());
            base.text(req.query.get("q").map(|s| s.as_str()).unwrap_or(""), 202)
        }),
    );
    let req = parse_request_text("POST /echo?q=hello HTTP/1.1\r\nHost: me\r\n\r\n");
    assert_eq!(
        respond(&router, &req),
        Some("HTTP/1.1 202 OK\r\nSet-Cookie: seen=me; HttpOnly; Path=/; Domain=example.com; Max-Age=3600\r\nContent-Type: text/plain\r\nContent-Length: 5\r\n\r\nhello".to_string())
    );
}

#[test]
fn execute_runs_only_what_answers_at_once() {
    let sync: EitherHandler<Handler, ()> = EitherHandler::Sync(say("now"));
    let later: EitherHandler<Handler, ()> = EitherHandler::Async(());
    let req = Request::new();
    assert_eq!(execute_handler(&sync, &req), Some(wire("now")));
    assert_eq!(execute_handler(&later, &req), None);
}

#[test]
fn resolve_and_register() {
    let mut router: Router<u8, u8> = Router::new();
    router.register(Method::Get, "/", EitherHandler::Sync(1));
    router.register(Method::Unsupported, "/", EitherHandler::Sync(9));
    router.register(Method::Delete, "/", EitherHandler::Async(2));
    assert!(matches!(router.resolve(Method::Get, "/"), Some(EitherHandler::Sync(1))));
    assert!(matches!(router.resolve(Method::Delete, "/"), Some(EitherHandler::Async(2))));
    assert!(router.resolve(Method::Unsupported, "/").is_none());
    assert!(router.resolve(Method::Post, "/").is_none());
    let table = vec![("/a".to_string(), 1), ("/b".to_string(), 2), ("/a".to_string(), 3)];
    assert_eq!(find_route(&table, "/a"), Some(&3));
    assert_eq!(find_route(&table, "/b"), Some(&2));
    assert_eq!(find_route(&table, "/c"), None);
    let _ = Params::new();
}
