use seroost::command::{route, HttpMethod, Route, MAX_RESULTS};

#[test]
fn routes_requests() {
    assert_eq!(route(HttpMethod::Post, "/api/search"), Route::Search);
    assert_eq!(route(HttpMethod::Get, "/api/search"), Route::NotFound);
    assert_eq!(route(HttpMethod::Get, "/"), Route::IndexPage);
    assert_eq!(route(HttpMethod::Get, "/index.html"), Route::IndexPage);
    assert_eq!(route(HttpMethod::Get, "/index.js"), Route::IndexScript);
    assert_eq!(route(HttpMethod::Post, "/"), Route::NotFound);
    assert_eq!(route(HttpMethod::Other, "/"), Route::NotFound);
    assert_eq!(route(HttpMethod::Get, "/missing"), Route::NotFound);
}

#[test]
fn static_routes_name_their_files() {
    assert_eq!(Route::IndexPage.static_file(), Some("static/index.html"));
    assert_eq!(Route::IndexScript.static_file(), Some("static/index.js"));
    assert_eq!(Route::Search.static_file(), None);
    assert_eq!(Route::NotFound.static_file(), None);
    assert_eq!(MAX_RESULTS, 30);
}
