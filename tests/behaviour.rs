use path_router::{Error, Router};

fn param(router: &Router<u32>, path: &str, name: &str) -> Option<String> {
    let m = router.recognize(path)?;
    m.params.get(name).cloned()
}

#[test]
fn example_scenario() {
    let mut router = Router::new();
    router.add("/", 0).unwrap();
    router.add("/users", 1).unwrap();
    router.add("/users/:id", 2).unwrap();
    router.add("/users/:user_id/repos/:id/*any", 3).unwrap();
    router.add("/about", 4).unwrap();

    let m = router.recognize("/").unwrap();
    assert_eq!(*m.data, 0);
    assert_eq!(m.params.len(), 0);

    let m = router.recognize("/users/42").unwrap();
    assert_eq!(*m.data, 2);
    assert_eq!(m.params.get("id").unwrap(), "42");
    assert_eq!(m.params.len(), 1);

    let m = router.recognize("/users/42/repos/12/x/y").unwrap();
    assert_eq!(*m.data, 3);
    assert_eq!(m.params.get("user_id").unwrap(), "42");
    assert_eq!(m.params.get("id").unwrap(), "12");
    assert_eq!(m.params.get("any").unwrap(), "x/y");
    assert_eq!(m.params.len(), 3);

    assert!(router.recognize("/about/what").is_none());
}

#[test]
fn adding_again_replaces_the_value() {
    let mut router = Router::new();
    assert_eq!(*router.add("/a/:x", 1).unwrap(), 1);
    assert_eq!(*router.add("/a/:x", 2).unwrap(), 2);
    assert_eq!(*router.recognize("/a/q").unwrap().data, 2);
    assert_eq!(router.list_routes(), vec!["/a/:x".to_string()]);
}

#[test]
fn adding_again_with_another_name_conflicts() {
    let mut router = Router::new();
    router.add("/a/:x", 1).unwrap();
    assert_eq!(router.add("/a/:y", 2).unwrap_err(), Error::RouteConflict);
    assert_eq!(*router.recognize("/a/q").unwrap().data, 1);
    assert_eq!(param(&router, "/a/q", "x"), Some("q".to_string()));
}

#[test]
fn the_value_handed_back_can_be_changed() {
    let mut router = Router::new();
    *router.add("/a", 1).unwrap() = 7;
    assert_eq!(*router.recognize("/a").unwrap().data, 7);
}

#[test]
fn parameter_beside_catch_all_conflicts() {
    let mut router = Router::new();
    router.add("/a/*rest", 1).unwrap();
    assert_eq!(router.add("/a/:x", 2).unwrap_err(), Error::RouteConflict);
    let mut router = Router::new();
    router.add("/a/:x", 1).unwrap();
    assert_eq!(router.add("/a/*rest", 2).unwrap_err(), Error::RouteConflict);
    assert_eq!(router.list_routes(), vec!["/a/:x".to_string()]);
}

#[test]
fn static_child_wins() {
    let mut router = Router::new();
    router.add("/a/:x", 1).unwrap();
    router.add("/a/b", 2).unwrap();
    router.add("/c/*rest", 3).unwrap();
    router.add("/c/d", 4).unwrap();
    assert_eq!(*router.recognize("/a/b").unwrap().data, 2);
    assert_eq!(*router.recognize("/a/z").unwrap().data, 1);
    assert_eq!(param(&router, "/a/z", "x"), Some("z".to_string()));
    assert_eq!(*router.recognize("/c/d").unwrap().data, 4);
    assert_eq!(param(&router, "/c/e/f", "rest"), Some("e/f".to_string()));
    // the static child is taken even where it leads nowhere
    assert!(router.recognize("/c/d/e").is_none());
    assert!(router.recognize("/a/b/c").is_none());
}

#[test]
fn trailing_slash_finds_the_same_route() {
    let mut router = Router::new();
    router.add("/users", 1).unwrap();
    router.add("/users/:id", 2).unwrap();
    assert_eq!(*router.recognize("/users/").unwrap().data, 1);
    assert_eq!(*router.recognize("/users").unwrap().data, 1);
    assert_eq!(param(&router, "/users/7/", "id"), Some("7".to_string()));
}

#[test]
fn catch_all_takes_the_rest() {
    let mut router = Router::new();
    router.add("/a/*rest", 1).unwrap();
    assert_eq!(param(&router, "/a/x/y/z", "rest"), Some("x/y/z".to_string()));
    assert_eq!(param(&router, "/a/x/y/z/", "rest"), Some("x/y/z/".to_string()));
    assert_eq!(param(&router, "/a/x", "rest"), Some("x".to_string()));
    assert_eq!(param(&router, "/a/x//y", "rest"), Some("x//y".to_string()));
    assert!(router.recognize("/a").is_none());
}

#[test]
fn invalid_patterns_are_refused() {
    let mut router: Router<u32> = Router::new();
    for route in [
        "", "a", "a/b", "//a", "/a//b", "/a/", "/:", "/a/:", "/*", "/a/*", "/:x/:x", "/:x/*x",
        "/*a/b",
    ] {
        assert_eq!(router.add(route, 1).unwrap_err(), Error::InvalidFormat, "{}", route);
    }
    assert!(router.list_routes().is_empty());
    assert!(router.recognize("/").is_none());
}

#[test]
fn non_ascii_segments_round_trip() {
    let mut router = Router::new();
    router.add("/ünïcødé/:名前", 1).unwrap();
    router.add("/ファイル/*道", 2).unwrap();
    assert_eq!(*router.recognize("/ünïcødé/値").unwrap().data, 1);
    assert_eq!(param(&router, "/ünïcødé/値", "名前"), Some("値".to_string()));
    assert_eq!(param(&router, "/ファイル/ä/ß/😀", "道"), Some("ä/ß/😀".to_string()));
    assert!(router.recognize("/unicode/x").is_none());
}

#[test]
fn empty_path_reads_as_root() {
    let mut router = Router::new();
    assert!(router.recognize("").is_none());
    router.add("/", 5).unwrap();
    assert_eq!(*router.recognize("").unwrap().data, 5);
    assert_eq!(*router.recognize("//").unwrap().data, 5);
}

#[test]
fn path_without_leading_slash_is_not_found() {
    let mut router = Router::new();
    router.add("/users", 1).unwrap();
    router.add("/:name", 2).unwrap();
    assert!(router.recognize("users").is_none());
}

#[test]
fn empty_segments_in_a_path_are_skipped() {
    let mut router = Router::new();
    router.add("/users/:id", 1).unwrap();
    assert_eq!(param(&router, "/users//42", "id"), Some("42".to_string()));
}

#[test]
fn intermediate_node_is_no_match() {
    let mut router = Router::new();
    router.add("/a/b/c", 1).unwrap();
    assert!(router.recognize("/a/b").is_none());
    assert!(router.recognize("/a").is_none());
    assert_eq!(*router.recognize("/a/b/c").unwrap().data, 1);
}

#[test]
fn sub_route_mounts_routes_below_a_prefix() {
    let mut router = Router::new();
    router.add("/:page", 1).unwrap();
    {
        let api = router.sub_route("/api/v1").unwrap();
        api.add("/", 2).unwrap();
        api.add("/items/:id", 3).unwrap();
        assert_eq!(param(api, "/items/9", "id"), Some("9".to_string()));
        assert_eq!(api.list_routes(), vec!["/".to_string(), "/items/:id".to_string()]);
    }
    assert_eq!(*router.recognize("/api/v1").unwrap().data, 2);
    assert_eq!(param(&router, "/api/v1/items/9", "id"), Some("9".to_string()));
    assert!(router.recognize("/api").is_none());
    assert_eq!(*router.recognize("/home").unwrap().data, 1);
}

#[test]
fn sub_route_refuses_wildcards_and_bad_shapes() {
    let mut router: Router<u32> = Router::new();
    for route in ["/a/:x", "/*x", "admin", "/a/", "//a", ""] {
        assert_eq!(router.sub_route(route).err(), Some(Error::InvalidFormat), "{}", route);
    }
    assert!(router.sub_route("/").is_ok());
}

#[test]
fn list_routes_walks_depth_first() {
    let mut router = Router::new();
    router.add("/", 0).unwrap();
    router.add("/users", 1).unwrap();
    router.add("/users/:id", 2).unwrap();
    router.add("/about", 3).unwrap();
    router.add("/files/*path", 4).unwrap();
    router.add("/:slug/edit", 5).unwrap();
    router.add("/users/:uid/repos/:rid", 6).unwrap();
    assert_eq!(
        router.list_routes(),
        vec![
            "/".to_string(),
            "/about".to_string(),
            "/files/*path".to_string(),
            "/users".to_string(),
            "/users/:id".to_string(),
            "/users/:uid/repos/:rid".to_string(),
            "/:slug/edit".to_string(),
        ]
    );
}

#[test]
fn static_children_are_found_in_any_insertion_order() {
    let mut router = Router::new();
    let words = ["m", "c", "x", "a", "é", "b", "zz", "z", "ab", "A"];
    for (i, w) in words.iter().enumerate() {
        router.add(&format!("/{}", w), i as u32).unwrap();
    }
    for (i, w) in words.iter().enumerate() {
        assert_eq!(*router.recognize(&format!("/{}", w)).unwrap().data, i as u32);
    }
    assert!(router.recognize("/y").is_none());
    assert_eq!(
        router.list_routes(),
        vec!["/A", "/a", "/ab", "/b", "/c", "/m", "/x", "/z", "/zz", "/é"]
    );
}

#[test]
fn error_messages() {
    assert_eq!(Error::InvalidFormat.message(), "invalid format");
    assert_eq!(Error::RouteConflict.message(), "route conflict");
}
