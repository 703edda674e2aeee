use http1::app::pre_render::{pre_render_status_error, pre_render_url};
use http1::app::method::{Method, MethodRoute};
use http1::app::routing::Route;
use http1::app::{App, Scope};

fn get_response(scope: &Scope<&'static str>, path: &str, method: Method) -> &'static str {
    match scope.find(path, method).value {
        Some(h) => h,
        None => "not found",
    }
}














#[test]
fn should_take_route_parameters() {
    let scope = Scope::new()
        .get("/users/:id", "user")
        .get("/files/:path*", "file");

    let m = scope.find("/users/42", Method::GET);
    assert_eq!(m.value, Some(&"user"));
    assert_eq!(m.params, vec![("id".to_string(), "42".to_string())]);

    let m = scope.find("/files/a/b/c", Method::GET);
    assert_eq!(m.value, Some(&"file"));
    assert_eq!(m.params, vec![("path".to_string(), "a/b/c".to_string())]);
}

#[test]
fn should_prefer_static_over_param_route() {
    let scope = Scope::new()
        .get("/users/:id", "by_id")
        .get("/users/me", "me");
    assert_eq!(get_response(&scope, "/users/me", Method::GET), "me");
    assert_eq!(get_response(&scope, "/users/5", Method::GET), "by_id");
}

#[test]
fn should_answer_not_found_without_fallback() {
    let scope: Scope<&'static str> = Scope::new().get("/a", "a");
    assert_eq!(get_response(&scope, "/b", Method::GET), "not found");
    assert!(scope.find_route("/b").is_none());
}

#[test]
fn should_find_route_of_path() {
    let scope = Scope::new().get("/users/:id", "user").fallback("fb");
    assert_eq!(scope.find_route("/users/1").unwrap().to_string(), "/users/:id");
    // The first fallback route with the fallback's handler.
    assert_eq!(scope.find_route("/other/path").unwrap().to_string(), "/");
}

#[test]
fn should_render_route() {
    assert_eq!(Route::new("/api//posts/").to_string(), "/api/posts");
    assert_eq!(Route::new("").to_string(), "/");
    assert!(Route::new("/a/b").is_static());
    assert!(!Route::new("/a/:b").is_static());
}

#[test]
fn should_dispatch_app_request() {
    let app: App<&'static str, &'static str, u32> = App::new()
        .state(10)
        .middleware("logger")
        .get("/", "index")
        .fallback("fallback");

    let d = app.handle("/", Method::GET);
    assert_eq!(d.handler, Some(&"index"));
    assert_eq!(d.state, Some(&10));
    assert_eq!(d.middleware, &vec!["logger"]);
    assert!(!d.discard_body);

    let d = app.handle("/missing", Method::HEAD);
    assert_eq!(d.handler, Some(&"fallback"));
    assert!(d.discard_body);
}

#[test]
fn app_test_all_http_methods() {
    let scope = Scope::new()
        .get("/test", "get")
        .post("/test", "post")
        .put("/test", "put")
        .delete("/test", "delete")
        .patch("/test", "patch")
        .options("/test", "options")
        .head("/test", "head")
        .trace("/test", "trace");

    assert_eq!(get_response(&scope, "/test", Method::GET), "get");
    assert_eq!(get_response(&scope, "/test", Method::POST), "post");
    assert_eq!(get_response(&scope, "/test", Method::PUT), "put");
    assert_eq!(get_response(&scope, "/test", Method::DELETE), "delete");
    assert_eq!(get_response(&scope, "/test", Method::PATCH), "patch");
    assert_eq!(get_response(&scope, "/test", Method::OPTIONS), "options");
    assert_eq!(get_response(&scope, "/test", Method::HEAD), "head");
    assert_eq!(get_response(&scope, "/test", Method::TRACE), "trace");
}

#[test]
fn mod_test_all_http_methods() {
    let scope = Scope::new()
        .get("/test", "get")
        .post("/test", "post")
        .put("/test", "put")
        .delete("/test", "delete")
        .patch("/test", "patch")
        .options("/test", "options")
        .head("/test", "head")
        .trace("/test", "trace");

    assert_eq!(get_response(&scope, "/test", Method::GET), "get");
    assert_eq!(get_response(&scope, "/test", Method::POST), "post");
    assert_eq!(get_response(&scope, "/test", Method::PUT), "put");
    assert_eq!(get_response(&scope, "/test", Method::DELETE), "delete");
    assert_eq!(get_response(&scope, "/test", Method::PATCH), "patch");
    assert_eq!(get_response(&scope, "/test", Method::OPTIONS), "options");
    assert_eq!(get_response(&scope, "/test", Method::HEAD), "head");
    assert_eq!(get_response(&scope, "/test", Method::TRACE), "trace");
}

#[test]
fn app_test_method_precedence() {
    let scope = Scope::new()
        .get("/api", "get_handler")
        .post("/api", "post_handler");

    assert_eq!(get_response(&scope, "/api", Method::GET), "get_handler");
    assert_eq!(get_response(&scope, "/api", Method::POST), "post_handler");
}

#[test]
fn mod_test_method_precedence() {
    let scope = Scope::new()
        .get("/api", "get_handler")
        .post("/api", "post_handler");

    assert_eq!(get_response(&scope, "/api", Method::GET), "get_handler");
    assert_eq!(get_response(&scope, "/api", Method::POST), "post_handler");
}

#[test]
fn app_test_nested_routes() {
    let nested = Scope::new()
        .get("/users", "get_users")
        .post("/users", "create_user")
        .put("/users", "update_user")
        .delete("/users", "delete_user");

    let scope = Scope::new()
        .scope("/api", nested)
        .get("/health", "health")
        .any("/*", "fallback");

    assert_eq!(get_response(&scope, "/api/users", Method::GET), "get_users");
    assert_eq!(get_response(&scope, "/api/users", Method::POST), "create_user");
    assert_eq!(get_response(&scope, "/api/users", Method::PUT), "update_user");
    assert_eq!(get_response(&scope, "/api/users", Method::DELETE), "delete_user");
    assert_eq!(get_response(&scope, "/health", Method::GET), "health");
    assert_eq!(get_response(&scope, "/not_found", Method::POST), "fallback");
}

#[test]
fn mod_test_nested_routes() {
    let nested = Scope::new()
        .get("/users", "get_users")
        .post("/users", "create_user")
        .put("/users", "update_user")
        .delete("/users", "delete_user");

    let scope = Scope::new()
        .scope("/api", nested)
        .get("/health", "health")
        .any("/*", "fallback");

    assert_eq!(get_response(&scope, "/api/users", Method::GET), "get_users");
    assert_eq!(get_response(&scope, "/api/users", Method::POST), "create_user");
    assert_eq!(get_response(&scope, "/api/users", Method::PUT), "update_user");
    assert_eq!(get_response(&scope, "/api/users", Method::DELETE), "delete_user");
    assert_eq!(get_response(&scope, "/health", Method::GET), "health");
    assert_eq!(get_response(&scope, "/not_found", Method::POST), "fallback");
}

#[test]
fn app_test_any_method() {
    let scope = Scope::new().any("/test", "any_handler");

    for m in [
        Method::GET,
        Method::POST,
        Method::PUT,
        Method::DELETE,
        Method::PATCH,
        Method::OPTIONS,
        Method::HEAD,
        Method::TRACE,
        Method::CONNECT,
    ] {
        assert_eq!(get_response(&scope, "/test", m), "any_handler");
    }
}

#[test]
fn mod_test_any_method() {
    let scope = Scope::new().any("/test", "any_handler");

    for m in [
        Method::GET,
        Method::POST,
        Method::PUT,
        Method::DELETE,
        Method::PATCH,
        Method::OPTIONS,
        Method::HEAD,
        Method::TRACE,
        Method::CONNECT,
    ] {
        assert_eq!(get_response(&scope, "/test", m), "any_handler");
    }
}

#[test]
fn app_test_wildcard_routes() {
    let scope = Scope::new()
        .get("/api/users/*", "users_wildcard")
        .post("/api/users/create/:path*", "create_wildcard");

    assert_eq!(get_response(&scope, "/api/users/123", Method::GET), "users_wildcard");
    assert_eq!(
        get_response(&scope, "/api/users/123/profile", Method::GET),
        "users_wildcard"
    );
    assert_eq!(
        get_response(&scope, "/api/users/create", Method::POST),
        "create_wildcard"
    );
}

#[test]
fn mod_test_wildcard_routes() {
    let scope = Scope::new()
        .get("/api/users/*", "users_wildcard")
        .post("/api/users/create/:path*", "create_wildcard");

    assert_eq!(get_response(&scope, "/api/users/123", Method::GET), "users_wildcard");
    assert_eq!(
        get_response(&scope, "/api/users/123/profile", Method::GET),
        "users_wildcard"
    );
    assert_eq!(
        get_response(&scope, "/api/users/create", Method::POST),
        "create_wildcard"
    );
}

#[test]
fn app_test_combined_method_routes() {
    let scope = Scope::new().route(
        MethodRoute::from_method(Method::GET).union(MethodRoute::from_method(Method::POST)),
        "/combined",
        "combined_handler",
    );

    assert_eq!(get_response(&scope, "/combined", Method::GET), "combined_handler");
    assert_eq!(get_response(&scope, "/combined", Method::POST), "combined_handler");
    assert_eq!(get_response(&scope, "/combined", Method::PUT), "not found");
}

#[test]
fn mod_test_combined_method_routes() {
    let scope = Scope::new().route(
        MethodRoute::from_method(Method::GET).union(MethodRoute::from_method(Method::POST)),
        "/combined",
        "combined_handler",
    );

    assert_eq!(get_response(&scope, "/combined", Method::GET), "combined_handler");
    assert_eq!(get_response(&scope, "/combined", Method::POST), "combined_handler");
    assert_eq!(get_response(&scope, "/combined", Method::PUT), "not found");
}

#[test]
fn app_test_fallback_handler() {
    let scope = Scope::new()
        .get("/test", "get_handler")
        .fallback("fallback_handler");

    assert_eq!(get_response(&scope, "/test", Method::GET), "get_handler");
    assert_eq!(get_response(&scope, "/not-found", Method::GET), "fallback_handler");
}

#[test]
fn mod_test_fallback_handler() {
    let scope = Scope::new()
        .get("/test", "get_handler")
        .fallback("fallback_handler");

    assert_eq!(get_response(&scope, "/test", Method::GET), "get_handler");
    assert_eq!(get_response(&scope, "/not-found", Method::GET), "fallback_handler");
}

#[test]
fn app_test_fallback_with_nested_scope() {
    let nested_scope = Scope::new()
        .get("/inner", "inner_handler")
        .fallback("nested_fallback");

    let scope = Scope::new().scope("/outer", nested_scope);

    assert_eq!(get_response(&scope, "/outer/inner", Method::GET), "inner_handler");
    assert_eq!(get_response(&scope, "/outer/not-found", Method::GET), "nested_fallback");
}

#[test]
fn mod_test_fallback_with_nested_scope() {
    let nested_scope = Scope::new()
        .get("/inner", "inner_handler")
        .fallback("nested_fallback");

    let scope = Scope::new().scope("/outer", nested_scope);

    assert_eq!(get_response(&scope, "/outer/inner", Method::GET), "inner_handler");
    assert_eq!(get_response(&scope, "/outer/not-found", Method::GET), "nested_fallback");
}

#[test]
fn app_test_multiple_fallbacks() {
    let scope = Scope::new()
        .scope(
            "/api",
            Scope::new().get("/test", "api_handler").fallback("api_fallback"),
        )
        .fallback("global_fallback");

    assert_eq!(get_response(&scope, "/api/test", Method::GET), "api_handler");
    assert_eq!(get_response(&scope, "/not-found", Method::GET), "global_fallback");
    assert_eq!(get_response(&scope, "/api/not-found", Method::GET), "api_fallback");
}

#[test]
fn mod_test_multiple_fallbacks() {
    let scope = Scope::new()
        .scope(
            "/api",
            Scope::new().get("/test", "api_handler").fallback("api_fallback"),
        )
        .fallback("global_fallback");

    assert_eq!(get_response(&scope, "/api/test", Method::GET), "api_handler");
    assert_eq!(get_response(&scope, "/not-found", Method::GET), "global_fallback");
    assert_eq!(get_response(&scope, "/api/not-found", Method::GET), "api_fallback");
}

#[test]
fn app_test_add_fallback_first() {
    let scope = Scope::new().fallback("fallback").post("/other", "other");

    assert_eq!(get_response(&scope, "/other", Method::POST), "other");
    assert_eq!(get_response(&scope, "/not-found", Method::PUT), "fallback");
}

#[test]
fn mod_test_add_fallback_first() {
    let scope = Scope::new().fallback("fallback").post("/other", "other");

    assert_eq!(get_response(&scope, "/other", Method::POST), "other");
    assert_eq!(get_response(&scope, "/not-found", Method::PUT), "fallback");
}

#[test]
fn app_test_add_fallback_first_nested() {
    let scope = Scope::new()
        .fallback("fallback")
        .scope(
            "/api",
            Scope::new().fallback("nested_fallback").delete("/items", "items"),
        )
        .post("/other", "other");

    assert_eq!(get_response(&scope, "/other", Method::POST), "other");
    assert_eq!(get_response(&scope, "/not-found", Method::PUT), "fallback");
    assert_eq!(get_response(&scope, "/api/items", Method::DELETE), "items");
    assert_eq!(get_response(&scope, "/api/not-existing", Method::PUT), "nested_fallback");
}

#[test]
fn mod_test_add_fallback_first_nested() {
    let scope = Scope::new()
        .fallback("fallback")
        .scope(
            "/api",
            Scope::new().fallback("nested_fallback").delete("/items", "items"),
        )
        .post("/other", "other");

    assert_eq!(get_response(&scope, "/other", Method::POST), "other");
    assert_eq!(get_response(&scope, "/not-found", Method::PUT), "fallback");
    assert_eq!(get_response(&scope, "/api/items", Method::DELETE), "items");
    assert_eq!(get_response(&scope, "/api/not-existing", Method::PUT), "nested_fallback");
}

#[test]
fn app_should_use_parent_fallback_in_nested() {
    let scope = Scope::new()
        .fallback("root fallback")
        .scope("/api", Scope::new().post("/items", "items"));

    assert_eq!(get_response(&scope, "/not-found", Method::POST), "root fallback");
    assert_eq!(get_response(&scope, "/api/items", Method::POST), "items");
    assert_eq!(get_response(&scope, "/api/items", Method::GET), "root fallback");
    assert_eq!(get_response(&scope, "/api/not-found", Method::POST), "root fallback");
}

#[test]
fn mod_should_use_parent_fallback_in_nested() {
    let scope = Scope::new()
        .fallback("root fallback")
        .scope("/api", Scope::new().post("/items", "items"));

    assert_eq!(get_response(&scope, "/not-found", Method::POST), "root fallback");
    assert_eq!(get_response(&scope, "/api/items", Method::POST), "items");
    assert_eq!(get_response(&scope, "/api/items", Method::GET), "root fallback");
    assert_eq!(get_response(&scope, "/api/not-found", Method::POST), "root fallback");
}

#[test]
fn app_should_list_routes() {
    let scope = Scope::new()
        .get("/hello", "hello")
        .get("/*", "static files")
        .scope(
            "/api",
            Scope::new()
                .get("/users", "user_list")
                .post("/users", "create_user")
                .scope(
                    "/admin",
                    Scope::new()
                        .get("/settings", "admin_settings")
                        .post("/settings", "update_settings")
                        .get("/settings/:id", "get_setting"),
                )
                .scope(
                    "/posts",
                    Scope::new()
                        .get("/", "list_posts")
                        .get("/new", "new_post")
                        .post("/", "create_post")
                        .get("/*", "catch_all_posts")
                        .get("/featured/:post*", "featured_posts"),
                )
                .get("/items/:item_id", "get_item")
                .get("/items/:item_id/details/*", "item_details"),
        );

    let entries = scope
        .routes()
        .into_iter()
        .map(|(r, _)| r.to_string())
        .collect::<Vec<_>>();

    for expected in [
        "/hello",
        "/*",
        "/api/users",
        "/api/admin/settings",
        "/api/admin/settings/:id",
        "/api/posts",
        "/api/posts/new",
        "/api/posts/*",
        "/api/posts/featured/:post*",
        "/api/items/:item_id",
        "/api/items/:item_id/details/*",
    ] {
        assert!(entries.iter().any(|x| x == expected), "missing {expected}");
    }
}

#[test]
fn mod_should_list_routes() {
    let scope = Scope::new()
        .get("/hello", "hello")
        .get("/*", "static files")
        .scope("/", Scope::new().get("/health", "ok"))
        .scope(
            "/api",
            Scope::new()
                .get("/users", "user_list")
                .post("/users", "create_user")
                .scope(
                    "/admin",
                    Scope::new()
                        .get("/settings", "admin_settings")
                        .post("/settings", "update_settings")
                        .get("/settings/:id", "get_setting"),
                )
                .scope(
                    "/posts",
                    Scope::new()
                        .get("/", "list_posts")
                        .get("/new", "new_post")
                        .post("/", "create_post")
                        .get("/*", "catch_all_posts")
                        .get("/featured/:post*", "featured_posts"),
                )
                .get("/items/:item_id", "get_item")
                .get("/items/:item_id/details/*", "item_details"),
        );

    let entries = scope
        .routes()
        .into_iter()
        .map(|(r, _)| r.to_string())
        .collect::<Vec<_>>();

    for expected in [
        "/hello",
        "/health",
        "/*",
        "/api/users",
        "/api/admin/settings",
        "/api/admin/settings/:id",
        "/api/posts",
        "/api/posts/new",
        "/api/posts/*",
        "/api/posts/featured/:post*",
        "/api/items/:item_id",
        "/api/items/:item_id/details/*",
    ] {
        assert!(entries.iter().any(|x| x == expected), "missing {expected}");
    }
}

#[derive(Debug, Clone, PartialEq, Eq)]
struct HitPoints(u32);

#[test]
fn should_get_state() {
    let app: App<&'static str, &'static str, HitPoints> = App::new().state(HitPoints(10)).get("/", "handler");
    let d = app.handle("/", Method::GET);
    assert_eq!(d.handler, Some(&"handler"));
    assert_eq!(d.state, Some(&HitPoints(10)));
}

#[test]
fn pre_render_url_and_status_error() {
    assert_eq!(pre_render_url(8080, "/blog/post"), "http://127.0.0.1:8080/blog/post");
    assert_eq!(
        pre_render_status_error("http://127.0.0.1:8080/x", 404),
        "Failed to pre-render `http://127.0.0.1:8080/x`, returned 404 status code"
    );
}
