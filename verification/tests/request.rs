use sr_router::{Method, Request, RequestUri};

#[test]
fn path_ends_at_the_first_question_mark() {
    let request =
        Request::from(Method::Get, RequestUri::AbsolutePath("/where?q=now?x".to_string()));
    assert_eq!(request.path(), "/where");
    assert_eq!(request.query(), Some("q=now?x"));
}

#[test]
fn target_without_question_mark_has_no_query() {
    let request = Request::from(Method::Get, RequestUri::AbsolutePath("/where".to_string()));
    assert_eq!(request.path(), "/where");
    assert_eq!(request.query(), None);
}

#[test]
fn question_mark_at_the_end_gives_an_empty_query() {
    let request = Request::from(Method::Get, RequestUri::AbsolutePath("/where?".to_string()));
    assert_eq!(request.path(), "/where");
    assert_eq!(request.query(), Some(""));
}

#[test]
fn question_mark_at_the_start_gives_an_empty_path() {
    let request = Request::from(Method::Get, RequestUri::AbsolutePath("?a".to_string()));
    assert_eq!(request.path(), "");
    assert_eq!(request.query(), Some("a"));
}

#[test]
fn empty_target_has_an_empty_path() {
    let request = Request::from(Method::Get, RequestUri::AbsolutePath(String::new()));
    assert_eq!(request.path(), "");
    assert_eq!(request.query(), None);
}

#[test]
fn absolute_uri_gives_its_own_path_and_query() {
    let with_query = Request::from(Method::Post, RequestUri::AbsoluteUri {
        path: "/api/versions".to_string(),
        query: Some("page=2".to_string()),
    });
    assert_eq!(with_query.path(), "/api/versions");
    assert_eq!(with_query.query(), Some("page=2"));
    let without = Request::from(Method::Post, RequestUri::AbsoluteUri {
        path: "/a?b".to_string(),
        query: None,
    });
    assert_eq!(without.path(), "/a?b");
    assert_eq!(without.query(), None);
}

#[test]
fn path_and_query_beyond_ascii() {
    let request = Request::from(
        Method::Get,
        RequestUri::AbsolutePath("/caf\u{e9}?na\u{ef}ve=\u{4e2d}".to_string()),
    );
    assert_eq!(request.path(), "/caf\u{e9}");
    assert_eq!(request.query(), Some("na\u{ef}ve=\u{4e2d}"));
}

#[test]
fn new_request_has_no_captures() {
    let request = Request::from(Method::Head, RequestUri::AbsolutePath("/x".to_string()));
    assert!(request.captures().is_empty());
    assert_eq!(request.method(), Method::Head);
    assert!(matches!(request.uri(), RequestUri::AbsolutePath(target) if target == "/x"));
    let star = Request::from(Method::Other, RequestUri::Star);
    assert!(star.captures().is_empty());
    assert!(matches!(star.uri(), RequestUri::Star));
}
