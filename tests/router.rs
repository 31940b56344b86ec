use path_router::{Match, Router};

const ROUTES: [&'static str; 10] = [
    "/",
    "/users",
    "/users/:id",
    "/users/:id/:org",
    "/users/:user_id/repos",
    "/users/:user_id/repos/:id",
    "/users/:user_id/repos/:id/*any",
    "/about",
    "/about/us",
    "/:username",
];

fn build_simple_router(router: &mut Router<usize>) {
    for (i, route) in ROUTES.iter().enumerate() {
        router.add(route, i).unwrap();
    }
}

fn check_with_base(router: &Router<usize>, base: &str) {
    let checks = vec![
        ("/", true, 0, vec![]),
        ("/users", true, 1, vec![]),
        ("/users/", true, 1, vec![]),
        ("/users/42", true, 2, vec![("id", "42")]),
        ("/users/四十二", true, 2, vec![("id", "四十二")]),
        ("/users/****", true, 2, vec![("id", "****")]),
        (
            "/users/42/ruster",
            true,
            3,
            vec![("id", "42"), ("org", "ruster")],
        ),
        ("/users/42/repos", true, 4, vec![("user_id", "42")]),
        ("/users/42/repos/", true, 4, vec![("user_id", "42")]),
        (
            "/users/42/repos/12",
            true,
            5,
            vec![("user_id", "42"), ("id", "12")],
        ),
        (
            "/users/42/repos/12/",
            true,
            5,
            vec![("user_id", "42"), ("id", "12")],
        ),
        (
            "/users/42/repos/12/x",
            true,
            6,
            vec![("user_id", "42"), ("id", "12"), ("any", "x")],
        ),
        (
            "/users/42/repos/12/x/y/z",
            true,
            6,
            vec![("user_id", "42"), ("id", "12"), ("any", "x/y/z")],
        ),
        (
            "/users/42/repos/12/x/y/z/",
            true,
            6,
            vec![("user_id", "42"), ("id", "12"), ("any", "x/y/z/")],
        ),
        (
            "/users/42/repos/12/x/山口山/z",
            true,
            6,
            vec![("user_id", "42"), ("id", "12"), ("any", "x/山口山/z")],
        ),
        ("/about", true, 7, vec![]),
        ("/about/us", true, 8, vec![]),
        ("/somebody", true, 9, vec![("username", "somebody")]),
        ("/某人", true, 9, vec![("username", "某人")]),
        ("/某人/", true, 9, vec![("username", "某人")]),
        ("/somebody/", true, 9, vec![("username", "somebody")]),
        ("/about/", true, 7, vec![]),
        ("/about/what", false, 0, vec![]),
        ("/somebody/what", false, 0, vec![]),
        ("/某人/what", false, 0, vec![]),
        ("/users/42/ruster/12", false, 0, vec![]),
        ("/users/42/ruster/12/a", false, 0, vec![]),
    ];

    for (path, exist, val, param) in checks.iter() {
        let path_string = format!("{}{}", base, *path);
        if *exist {
            let m = router.recognize(&path_string).unwrap();
            assert_eq!(m.data, val);
            for (k, v) in param {
                match m.params.get(*k) {
                    Some(ref rv) => assert_eq!(v, rv),
                    None => panic!("{} not found", k),
                }
            }
        } else {
            assert!(router.recognize(&path_string).is_none());
        }
    }
}

#[test]
fn simple_router() {
    let mut router = Router::default();
    build_simple_router(&mut router);
    check_with_base(&router, "");
}

#[test]
fn invalid_routes() {
    let checks = vec![
        ("/dup/:id/:id", false, vec![]),
        ("/double_slash//a", false, vec![]),
        ("/double_slash///a", false, vec![]),
        ("/trailing_slash/", false, vec![]),
        ("/empty_param/:", false, vec![]),
        ("/empty_param/:/a", false, vec![]),
        ("/empty_catch_all/*", false, vec![]),
        ("/different_param_name/:a", true, vec!["a"]),
        ("/different_param_name/:b", false, vec![]),
        ("/different_param_name/:b/:c", true, vec!["b", "c"]),
        ("/different_param_name/:a/:d", false, vec![]),
        ("/different_param_name/:a/:d/*e", true, vec!["a", "d", "e"]),
        ("/catch_all_not_the_last/*a/extra", false, vec![]),
    ];

    let mut router = Router::default();

    for (route, valid, keys) in checks.iter() {
        let rs = router.add(*route, 1);
        if *valid {
            assert_eq!(*rs.unwrap(), 1);
            match router.recognize(*route) {
                None => panic!("failed to recognize {}", *route),
                Some(Match { data: _, params }) => {
                    for k in keys.iter() {
                        assert!(params.get(*k).is_some(), "miss capturing param: {}", *k)
                    }
                }
            }
        } else {
            assert!(rs.is_err());
        }
    }
}

#[test]
fn base_route() {
    let mut router = Router::default();
    build_simple_router(&mut router);
    {
        let admin = router.sub_route("/admin").unwrap();
        build_simple_router(admin);
        {
            let console = admin.sub_route("/console").unwrap();
            build_simple_router(console);
            check_with_base(console, "");
        }
        check_with_base(admin, "");
        check_with_base(admin, "/console");
    }
    check_with_base(&router, "");
    check_with_base(&router, "/admin");
    check_with_base(&router, "/admin/console");
}

#[test]
fn display_routes() {
    let mut router = Router::default();
    build_simple_router(&mut router);
    println!("{:?}", router.list_routes())
}
