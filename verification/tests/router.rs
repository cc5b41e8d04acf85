use sr_router::err::Error;
use sr_router::{Method, Request, RequestUri, Router};

fn path(target: &str) -> RequestUri {
    RequestUri::AbsolutePath(target.to_string())
}

fn router() -> Router<&'static str> {
    Router::build()
        .add_get("/foos", "foo")
        .add_get("/digits/*", "digits")
        .add_post("/body", "body")
        .not_found("not found")
        .finish()
        .unwrap()
}

#[test]
fn routes_by_verb_and_path() {
    let router = router();
    let (handler, request) = router.handle(Request::from(Method::Get, path("/foos"))).unwrap();
    assert_eq!(*handler, "foo");
    assert!(request.captures().is_empty());
    let (handler, _) = router.handle(Request::from(Method::Post, path("/body"))).unwrap();
    assert_eq!(*handler, "body");
}

#[test]
fn hands_the_captures_to_the_handler() {
    let router = router();
    let (handler, request) =
        router.handle(Request::from(Method::Get, path("/digits/12345?x=1"))).unwrap();
    assert_eq!(*handler, "digits");
    assert_eq!(request.captures(), vec!["12345"]);
    assert_eq!(request.path(), "/digits/12345");
    assert_eq!(request.query(), Some("x=1"));
    assert_eq!(request.method(), Method::Get);
}

#[test]
fn verb_without_table_goes_to_the_default_handler() {
    let router = router();
    for method in [Method::Put, Method::Patch, Method::Delete, Method::Head, Method::Other] {
        let (handler, request) = router.handle(Request::from(method, path("/foos"))).unwrap();
        assert_eq!(*handler, "not found");
        assert!(request.captures().is_empty());
    }
}

#[test]
fn path_without_route_goes_to_the_default_handler() {
    let router = router();
    let (handler, request) = router.handle(Request::from(Method::Get, path("/bars"))).unwrap();
    assert_eq!(*handler, "not found");
    assert!(request.captures().is_empty());
    let (handler, request) = router.handle(Request::from(Method::Post, path("/foos"))).unwrap();
    assert_eq!(*handler, "not found");
    assert!(request.captures().is_empty());
}

#[test]
fn query_is_not_matched() {
    let router = router();
    let (handler, _) = router.handle(Request::from(Method::Get, path("/foos?a=b"))).unwrap();
    assert_eq!(*handler, "foo");
}

#[test]
fn each_verb_has_its_own_table() {
    let router = Router::build()
        .add_get("/x", 1u8)
        .add_post("/x", 2u8)
        .add_put("/x", 3u8)
        .add_patch("/x", 4u8)
        .add_delete("/x", 5u8)
        .add_head("/x", 6u8)
        .not_found(0u8)
        .finish()
        .unwrap();
    let verbs = [
        (Method::Get, 1u8),
        (Method::Post, 2),
        (Method::Put, 3),
        (Method::Patch, 4),
        (Method::Delete, 5),
        (Method::Head, 6),
        (Method::Other, 0),
    ];
    for (method, expected) in verbs {
        let (handler, _) = router.handle(Request::from(method, path("/x"))).unwrap();
        assert_eq!(*handler, expected);
    }
}

#[test]
fn routes_the_path_of_an_absolute_uri() {
    let router = router();
    let uri = RequestUri::AbsoluteUri {
        path: "/digits/42".to_string(),
        query: Some("page=2".to_string()),
    };
    let (handler, request) = router.handle(Request::from(Method::Get, uri)).unwrap();
    assert_eq!(*handler, "digits");
    assert_eq!(request.captures(), vec!["42"]);
    assert_eq!(request.path(), "/digits/42");
    assert_eq!(request.query(), Some("page=2"));
}

#[test]
fn target_without_path_fails_where_the_verb_has_a_table() {
    let router = router();
    let star = router.handle(Request::from(Method::Get, RequestUri::Star));
    assert_eq!(star.err(), Some(Error::UnexpectedUri));
    let authority =
        router.handle(Request::from(Method::Post, RequestUri::Authority("host:80".to_string())));
    assert_eq!(authority.err(), Some(Error::UnexpectedUri));
}

#[test]
fn target_without_path_goes_to_the_default_handler_where_the_verb_has_no_table() {
    let router = router();
    let (handler, request) = router.handle(Request::from(Method::Put, RequestUri::Star)).unwrap();
    assert_eq!(*handler, "not found");
    assert!(request.captures().is_empty());
}

#[test]
fn finishing_without_default_handler_fails() {
    let unfinished = Router::build().add_get("/foos", "foo").finish();
    assert_eq!(unfinished.err(), Some(Error::MissingNotFound));
    let empty = Router::<u8>::build().finish();
    assert_eq!(empty.err(), Some(Error::MissingNotFound));
}

#[test]
fn errors_have_messages() {
    assert_eq!(Error::MissingNotFound.message(), "Must include not found");
    assert_eq!(Error::UnexpectedUri.message(), "Unexpected request URI");
}

#[test]
fn the_last_default_handler_counts() {
    let router = Router::build().not_found(1u8).not_found(2u8).finish().unwrap();
    let (handler, _) = router.handle(Request::from(Method::Get, path("/"))).unwrap();
    assert_eq!(*handler, 2);
}

#[test]
fn registration_order_decides_between_routes() {
    let router = Router::build()
        .add_get("/a/*", "wild")
        .add_get("/a/b", "exact")
        .not_found("none")
        .finish()
        .unwrap();
    let (handler, request) = router.handle(Request::from(Method::Get, path("/a/b"))).unwrap();
    assert_eq!(*handler, "wild");
    assert_eq!(request.captures(), vec!["b"]);
}

#[test]
fn empty_pattern_makes_an_empty_table() {
    let router = Router::build().add_get("", 1u8).not_found(0u8).finish().unwrap();
    let (handler, _) = router.handle(Request::from(Method::Get, path(""))).unwrap();
    assert_eq!(*handler, 0);
    assert_eq!(router.handle(Request::from(Method::Get, RequestUri::Star)).err(), Some(Error::UnexpectedUri));
}

#[test]
fn captures_of_several_wildcards_come_in_order() {
    let router = Router::build().add_get("/a*b*c", 1u8).not_found(0u8).finish().unwrap();
    let (handler, request) =
        router.handle(Request::from(Method::Get, path("/a-X-b-Y-c?q"))).unwrap();
    assert_eq!(*handler, 1);
    assert_eq!(request.captures(), vec!["-X-", "-Y-"]);
}
