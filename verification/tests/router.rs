use app_lifecycle::router::{AppRoutes, Router};

#[test]
fn new_router_is_empty() {
    let router = Router::new();
    assert!(router.routes().is_empty());
    assert!(router.layers().is_empty());
}

#[test]
fn merge_puts_declared_routes_behind_those_of_the_base() {
    let base = Router::new().route("/fallback");
    let table = AppRoutes::new().add("/users").add("/posts");
    let router = base.merge(table);
    assert_eq!(router.routes(), &vec!["/fallback", "/users", "/posts"]);
    assert!(router.layers().is_empty());
}

#[test]
fn merge_of_an_empty_table_changes_nothing() {
    let base = Router::new().route("/fallback").layer("trace");
    let router = base.clone().merge(AppRoutes::new());
    assert_eq!(router, base);
}

#[test]
fn layers_stack_from_the_innermost_to_the_outermost() {
    let router = Router::new().route("/").layer("X").layer("Y");
    assert_eq!(router.layers(), &vec!["X", "Y"]);
    assert_eq!(router.layers().last().unwrap(), "Y");
    assert_eq!(router.routes(), &vec!["/"]);
}

#[test]
fn the_same_layers_in_another_order_give_another_router() {
    let one = Router::new().route("/").layer("auth").layer("log");
    let other = Router::new().route("/").layer("log").layer("auth");
    assert_ne!(one, other);
    assert_ne!(one.layers(), other.layers());
    assert_eq!(one.routes(), other.routes());
}

#[test]
fn equal_layers_can_be_swapped_unseen() {
    let one = Router::new().layer("log").layer("log");
    let other = Router::new().layer("log").layer("log");
    assert_eq!(one, other);
}

#[test]
fn table_keeps_routes_in_the_order_given() {
    let table = AppRoutes::new().add("/b").add("/a").add("/b");
    assert_eq!(table.routes(), &vec!["/b", "/a", "/b"]);
    assert!(AppRoutes::new().routes().is_empty());
}
