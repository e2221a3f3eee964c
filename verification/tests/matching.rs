use matchit::{InsertError, MatchError, Node};

fn tree_of(routes: &[(&str, u32)]) -> Node<u32> {
    let mut tree = Node::default();
    for (route, value) in routes {
        assert_eq!(tree.insert(route, *value), Ok(()));
    }
    tree
}

fn found(tree: &Node<u32>, path: &str) -> (u32, Vec<(String, String)>) {
    match tree.at(path.as_bytes()) {
        Ok((value, params)) => {
            let mut bound = Vec::new();
            for i in 0..params.len() {
                bound.push((
                    String::from_utf8(params.name(i).to_vec()).unwrap(),
                    String::from_utf8(params.value(i).to_vec()).unwrap(),
                ));
            }
            (*value, bound)
        }
        Err(e) => panic!("{} did not match: {:?}", path, e),
    }
}

fn missed(tree: &Node<u32>, path: &str) -> MatchError {
    match tree.at(path.as_bytes()) {
        Ok((value, _)) => panic!("{} matched {}", path, value),
        Err(e) => e,
    }
}

fn pair(name: &str, value: &str) -> (String, String) {
    (name.to_string(), value.to_string())
}

#[test]
fn extra_trailing_slash() {
    let tree = tree_of(&[("/home", 1), ("/blog/", 2)]);
    assert_eq!(missed(&tree, "/home/"), MatchError::ExtraTrailingSlash);
}

#[test]
fn missing_trailing_slash() {
    let tree = tree_of(&[("/home", 1), ("/blog/", 2)]);
    assert_eq!(missed(&tree, "/blog"), MatchError::MissingTrailingSlash);
}

#[test]
fn not_found() {
    let tree = tree_of(&[("/home", 1)]);
    assert_eq!(missed(&tree, "/foobar"), MatchError::NotFound);
}

#[test]
fn static_routes_match_exactly() {
    let tree = tree_of(&[("/home", 1), ("/blog/", 2)]);
    assert_eq!(found(&tree, "/home"), (1, vec![]));
    assert_eq!(found(&tree, "/blog/"), (2, vec![]));
}

#[test]
fn single_param() {
    let tree = tree_of(&[("/users/:id", 7)]);
    assert_eq!(found(&tree, "/users/42"), (7, vec![pair("id", "42")]));
}

#[test]
fn two_params() {
    let tree = tree_of(&[("/users/:id/posts/:pid", 5)]);
    assert_eq!(
        found(&tree, "/users/7/posts/9"),
        (5, vec![pair("id", "7"), pair("pid", "9")])
    );
}

#[test]
fn catch_all_takes_the_rest() {
    let tree = tree_of(&[("/static/*path", 3)]);
    assert_eq!(
        found(&tree, "/static/a/b.css"),
        (3, vec![pair("path", "a/b.css")])
    );
}

#[test]
fn catch_all_needs_a_byte() {
    let tree = tree_of(&[("/static/*path", 3)]);
    assert_eq!(missed(&tree, "/static/"), MatchError::MissingTrailingSlash);
    assert_eq!(missed(&tree, "/static"), MatchError::NotFound);
    assert_eq!(found(&tree, "/static//"), (3, vec![pair("path", "/")]));
}

#[test]
fn static_beats_wildcard() {
    let tree = tree_of(&[("/a/:x", 1), ("/a/b", 2)]);
    assert_eq!(found(&tree, "/a/b"), (2, vec![]));
    assert_eq!(found(&tree, "/a/c"), (1, vec![pair("x", "c")]));
}

#[test]
fn static_branch_deeper() {
    let tree = tree_of(&[("/a/:x/c", 1), ("/a/b/d", 2)]);
    assert_eq!(found(&tree, "/a/b/d"), (2, vec![]));
}

#[test]
fn backtracks_to_the_wildcard() {
    let tree = tree_of(&[("/a/:x/c", 1), ("/a/b/d", 2)]);
    assert_eq!(found(&tree, "/a/b/c"), (1, vec![pair("x", "b")]));
}

#[test]
fn backtracks_twice_and_drops_bindings() {
    let tree = tree_of(&[("/:a/:b/x", 1), ("/s/:c/y", 2), ("/s/t/z", 3)]);
    assert_eq!(found(&tree, "/s/t/z"), (3, vec![]));
    assert_eq!(found(&tree, "/s/t/y"), (2, vec![pair("c", "t")]));
    assert_eq!(
        found(&tree, "/s/t/x"),
        (1, vec![pair("a", "s"), pair("b", "t")])
    );
    assert_eq!(missed(&tree, "/s/t/w"), MatchError::NotFound);
}

#[test]
fn backtracks_past_a_parameter_without_child() {
    let tree = tree_of(&[("/a/:x", 1), ("/:y/b/c", 2)]);
    assert_eq!(found(&tree, "/a/b/c"), (2, vec![pair("y", "a")]));
    assert_eq!(found(&tree, "/a/b"), (1, vec![pair("x", "b")]));
}

#[test]
fn parameter_takes_no_empty_segment() {
    let tree = tree_of(&[("/a/:x/b", 1)]);
    assert_eq!(found(&tree, "/a/v/b"), (1, vec![pair("x", "v")]));
    assert_eq!(missed(&tree, "/a//b"), MatchError::NotFound);
    assert_eq!(missed(&tree, "/a/"), MatchError::NotFound);
}

#[test]
fn parameter_with_trailing_slash_verdicts() {
    let tree = tree_of(&[("/users/:id", 1), ("/posts/:id/", 2)]);
    assert_eq!(missed(&tree, "/users/4/"), MatchError::ExtraTrailingSlash);
    assert_eq!(missed(&tree, "/posts/4"), MatchError::MissingTrailingSlash);
    assert_eq!(missed(&tree, "/users"), MatchError::NotFound);
}

#[test]
fn empty_tree_matches_nothing() {
    let tree: Node<u32> = Node::default();
    assert_eq!(missed(&tree, "/"), MatchError::NotFound);
    assert_eq!(missed(&tree, ""), MatchError::NotFound);
}

#[test]
fn empty_pattern_and_empty_path() {
    let mut tree = tree_of(&[("", 1)]);
    assert_eq!(found(&tree, ""), (1, vec![]));
    assert_eq!(missed(&tree, "/"), MatchError::ExtraTrailingSlash);
    assert_eq!(tree.insert("/x", 2), Ok(()));
    assert_eq!(found(&tree, ""), (1, vec![]));
    assert_eq!(found(&tree, "/x"), (2, vec![]));
    assert_eq!(
        tree.insert("", 3),
        Err(InsertError::Conflict {
            with: String::new()
        })
    );
    assert_eq!(tree.check_priorities(), Ok(2));
}

#[test]
fn empty_path_misses_a_slash() {
    let tree = tree_of(&[("/", 1)]);
    assert_eq!(missed(&tree, ""), MatchError::MissingTrailingSlash);
}

#[test]
fn unsure_goes_by_the_last_byte() {
    assert_eq!(MatchError::unsure(b"/home/"), MatchError::ExtraTrailingSlash);
    assert_eq!(MatchError::unsure(b"/home"), MatchError::MissingTrailingSlash);
    assert_eq!(MatchError::unsure(b"/"), MatchError::ExtraTrailingSlash);
}

#[test]
fn match_error_messages() {
    assert_eq!(
        MatchError::MissingTrailingSlash.message(),
        "match error: expected trailing slash"
    );
    assert_eq!(
        MatchError::ExtraTrailingSlash.message(),
        "match error: found extra trailing slash"
    );
    assert_eq!(MatchError::NotFound.message(), "match error: route not found");
}

#[test]
fn round_trip_of_every_pattern() {
    let routes = [
        ("/", 1),
        ("/cmd/:tool/", 2),
        ("/cmd/:tool/:sub", 3),
        ("/src/*filepath", 4),
        ("/search/", 5),
        ("/search/:query", 6),
        ("/user_:name", 7),
        ("/user_:name/about", 8),
        ("/files/:dir/*filepath", 9),
        ("/doc/", 10),
        ("/doc/go_faq.html", 11),
        ("/info/:user/public", 12),
        ("/info/:user/project/:project", 13),
    ];
    let tree = tree_of(&routes);
    assert_eq!(found(&tree, "/"), (1, vec![]));
    assert_eq!(found(&tree, "/cmd/zz/"), (2, vec![pair("tool", "zz")]));
    assert_eq!(
        found(&tree, "/cmd/zz/zz"),
        (3, vec![pair("tool", "zz"), pair("sub", "zz")])
    );
    assert_eq!(found(&tree, "/src/zz"), (4, vec![pair("filepath", "zz")]));
    assert_eq!(found(&tree, "/search/"), (5, vec![]));
    assert_eq!(found(&tree, "/search/zz"), (6, vec![pair("query", "zz")]));
    assert_eq!(found(&tree, "/user_zz"), (7, vec![pair("name", "zz")]));
    assert_eq!(found(&tree, "/user_zz/about"), (8, vec![pair("name", "zz")]));
    assert_eq!(
        found(&tree, "/files/zz/zz"),
        (9, vec![pair("dir", "zz"), pair("filepath", "zz")])
    );
    assert_eq!(found(&tree, "/doc/"), (10, vec![]));
    assert_eq!(found(&tree, "/doc/go_faq.html"), (11, vec![]));
    assert_eq!(found(&tree, "/info/zz/public"), (12, vec![pair("user", "zz")]));
    assert_eq!(
        found(&tree, "/info/zz/project/zz"),
        (13, vec![pair("user", "zz"), pair("project", "zz")])
    );
}

#[test]
fn any_order_of_insertion_answers_alike() {
    let routes = [("/a/:x/c", 1), ("/a/b/d", 2), ("/a/b", 3), ("/:y", 4), ("/:y/*rest", 5)];
    let orders: [[usize; 5]; 4] = [
        [0, 1, 2, 3, 4],
        [4, 3, 2, 1, 0],
        [2, 0, 4, 1, 3],
        [3, 1, 4, 0, 2],
    ];
    let paths = [
        "/a/b/c", "/a/b/d", "/a/b", "/a", "/q", "/a/q/c", "/a/q/d", "/a/b/", "/", "", "/a/",
        "/a/b/d/", "/q/",
    ];
    let first = {
        let mut tree = Node::default();
        for i in orders[0] {
            assert_eq!(tree.insert(routes[i].0, routes[i].1), Ok(()));
        }
        tree
    };
    for order in &orders[1..] {
        let mut tree = Node::default();
        for &i in order {
            assert_eq!(tree.insert(routes[i].0, routes[i].1), Ok(()));
        }
        for path in paths {
            match (first.at(path.as_bytes()), tree.at(path.as_bytes())) {
                (Ok(_), Ok(_)) => assert_eq!(found(&first, path), found(&tree, path)),
                (Err(a), Err(b)) => assert_eq!(a, b),
                _ => panic!("{} is answered differently", path),
            }
        }
    }
}

#[test]
fn params_lookup_by_name() {
    let tree = tree_of(&[("/users/:id/posts/:pid", 5)]);
    match tree.at(b"/users/7/posts/9") {
        Ok((_, params)) => {
            assert_eq!(params.len(), 2);
            assert!(!params.is_empty());
            assert_eq!(params.get(b"id"), Some(&b"7"[..]));
            assert_eq!(params.get(b"pid"), Some(&b"9"[..]));
            assert_eq!(params.get(b"none"), None);
            assert_eq!(params.name(1), b"pid");
            assert_eq!(params.value(0), b"7");
        }
        Err(e) => panic!("no match: {:?}", e),
    }
}
