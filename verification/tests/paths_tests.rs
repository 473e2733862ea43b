use rucho::paths::normalize_path;

#[test]
fn test_normalize_status_path() {
    assert_eq!(normalize_path("/status/404"), "/status/:code");
    assert_eq!(normalize_path("/status/200"), "/status/:code");
    assert_eq!(normalize_path("/status/500"), "/status/:code");
}

#[test]
fn test_normalize_delay_path() {
    assert_eq!(normalize_path("/delay/5"), "/delay/:n");
    assert_eq!(normalize_path("/delay/300"), "/delay/:n");
}

#[test]
fn test_normalize_redirect_path() {
    assert_eq!(normalize_path("/redirect/3"), "/redirect/:n");
    assert_eq!(normalize_path("/redirect/1"), "/redirect/:n");
    assert_eq!(normalize_path("/redirect/20"), "/redirect/:n");
}

#[test]
fn test_normalize_cookies_path() {
    assert_eq!(normalize_path("/cookies"), "/cookies");
    assert_eq!(normalize_path("/cookies/set"), "/cookies/set");
    assert_eq!(normalize_path("/cookies/delete"), "/cookies/delete");
}

#[test]
fn test_normalize_anything_path() {
    assert_eq!(normalize_path("/anything/foo"), "/anything/*path");
    assert_eq!(normalize_path("/anything/foo/bar/baz"), "/anything/*path");
}

#[test]
fn test_normalize_regular_paths() {
    assert_eq!(normalize_path("/get"), "/get");
    assert_eq!(normalize_path("/post"), "/post");
    assert_eq!(normalize_path("/healthz"), "/healthz");
    assert_eq!(normalize_path("/"), "/");
}

#[test]
fn test_normalize_anything_root() {
    // /anything without additional path segments stays as is
    assert_eq!(normalize_path("/anything"), "/anything");
}

#[test]
fn test_normalize_cookies_extra_segments() {
    // Only the action segment is kept; anything after it is dropped.
    assert_eq!(normalize_path("/cookies/set/extra"), "/cookies/set");
    assert_eq!(normalize_path("/cookies/"), "/cookies/");
}

#[test]
fn test_normalize_non_ascii_path() {
    assert_eq!(normalize_path("/caf\u{e9}"), "/caf\u{e9}");
    assert_eq!(normalize_path("/status/\u{e9}"), "/status/:code");
    assert_eq!(normalize_path("/cookies/\u{e9}t\u{e9}"), "/cookies/\u{e9}t\u{e9}");
}
