use matchit::{InsertError, Node, NodeType};

fn conflict(with: &str) -> Result<(), InsertError> {
    Err(InsertError::Conflict {
        with: with.to_string(),
    })
}

fn check_node(node: &Node<u32>) -> u32 {
    let children = node.children();
    let indices = node.indices();
    let statics = if node.has_wild_child() {
        assert!(!children.is_empty());
        children.len() - 1
    } else {
        children.len()
    };
    assert_eq!(indices.len(), statics);
    let mut sum = if node.value().is_some() { 1 } else { 0 };
    for (i, child) in children.iter().enumerate() {
        let wildcard = matches!(child.kind(), NodeType::Param | NodeType::CatchAll);
        if i < statics {
            assert!(!wildcard);
            assert_eq!(child.prefix()[0], indices[i]);
            if i > 0 {
                assert!(children[i - 1].priority() >= child.priority());
            }
        } else {
            assert!(wildcard);
            assert_eq!(i, children.len() - 1);
        }
        if child.kind() == NodeType::CatchAll {
            assert!(child.children().is_empty());
        }
        sum += check_node(child);
    }
    assert_eq!(node.priority(), sum);
    sum
}

fn checked(tree: &Node<u32>, count: u32) {
    assert_eq!(tree.check_priorities(), Ok(count));
    assert_eq!(check_node(tree), count);
    assert_eq!(tree.priority(), count);
}

#[test]
fn conflict_names_the_pattern_in_the_tree() {
    let mut tree = Node::default();
    assert_eq!(tree.insert("/a/:x", 1), Ok(()));
    assert_eq!(tree.insert("/a/:y", 2), conflict("/a/:x"));
    checked(&tree, 1);
}

#[test]
fn too_many_params() {
    let mut tree = Node::default();
    assert_eq!(tree.insert("/a/:x:y", 1), Err(InsertError::TooManyParams));
    assert_eq!(tree.insert("/a/:x*y", 1), Err(InsertError::TooManyParams));
    checked(&tree, 0);
}

#[test]
fn unnamed_param() {
    let mut tree = Node::default();
    assert_eq!(tree.insert("/a/:", 1), Err(InsertError::UnnamedParam));
    assert_eq!(tree.insert("/a/:/b", 1), Err(InsertError::UnnamedParam));
    assert_eq!(tree.insert("/a/*", 1), Err(InsertError::UnnamedParam));
    checked(&tree, 0);
}

#[test]
fn invalid_catch_all() {
    let mut tree = Node::default();
    assert_eq!(tree.insert("/a/*p/b", 1), Err(InsertError::InvalidCatchAll));
    assert_eq!(tree.insert("/a*p", 1), Err(InsertError::InvalidCatchAll));
    assert_eq!(tree.insert("*p", 1), Err(InsertError::InvalidCatchAll));
    assert_eq!(tree.insert("a/*p", 1), Err(InsertError::InvalidCatchAll));
    checked(&tree, 0);
    assert_eq!(tree.insert("/a/*p", 1), Ok(()));
    checked(&tree, 1);
}

#[test]
fn catch_all_behind_a_split_needs_its_slash() {
    let mut tree = Node::default();
    assert_eq!(tree.insert("/ab", 1), Ok(()));
    assert_eq!(tree.insert("/a*p", 2), Err(InsertError::InvalidCatchAll));
    checked(&tree, 1);
    assert_eq!(tree.children().len(), 0);
    assert_eq!(tree.prefix(), b"/ab");
}

#[test]
fn first_error_from_the_left() {
    let mut tree = Node::default();
    assert_eq!(tree.insert("/:/:a:b", 1), Err(InsertError::UnnamedParam));
    assert_eq!(tree.insert("/:a:b/:", 1), Err(InsertError::TooManyParams));
    assert_eq!(tree.insert("/:a/*b/c/:", 1), Err(InsertError::InvalidCatchAll));
}

#[test]
fn same_pattern_twice() {
    let mut tree = Node::default();
    assert_eq!(tree.insert("/home", 1), Ok(()));
    assert_eq!(tree.insert("/home", 2), conflict("/home"));
    assert_eq!(tree.insert("/users/:id", 3), Ok(()));
    assert_eq!(tree.insert("/users/:id", 4), conflict("/users/:id"));
    assert_eq!(tree.insert("/src/*all", 5), Ok(()));
    assert_eq!(tree.insert("/src/*all", 6), conflict("/src/*all"));
    checked(&tree, 3);
}

#[test]
fn wildcard_conflicts() {
    let mut tree = Node::default();
    assert_eq!(tree.insert("/cmd/:tool/:sub", 1), Ok(()));
    assert_eq!(tree.insert("/cmd/:tools", 2), conflict("/cmd/:tool/:sub"));
    assert_eq!(tree.insert("/cmd/:t", 2), conflict("/cmd/:tool/:sub"));
    assert_eq!(tree.insert("/cmd/*all", 2), conflict("/cmd/:tool/:sub"));
    assert_eq!(tree.insert("/cmd/:tool/*all", 2), conflict("/cmd/:tool/:sub"));
    assert_eq!(tree.insert("/src/*filepath", 3), Ok(()));
    assert_eq!(tree.insert("/src/*filepathx", 4), conflict("/src/*filepath"));
    assert_eq!(tree.insert("/src/:file", 4), conflict("/src/*filepath"));
    assert_eq!(tree.insert("/src/*filepath/x", 4), conflict("/src/*filepath"));
    checked(&tree, 2);
    assert_eq!(tree.insert("/cmd/vet", 5), Ok(()));
    assert_eq!(tree.insert("/cmd/:tool", 6), Ok(()));
    assert_eq!(tree.insert("/src/", 7), Ok(()));
    checked(&tree, 5);
}

#[test]
fn conflict_over_a_malformed_token_is_a_conflict() {
    let mut tree = Node::default();
    assert_eq!(tree.insert("/a/:x", 1), Ok(()));
    assert_eq!(tree.insert("/a/:x:y", 2), conflict("/a/:x"));
}

#[test]
fn conflict_follows_the_first_children() {
    let mut tree = Node::default();
    assert_eq!(tree.insert("/a/:x/one", 1), Ok(()));
    assert_eq!(tree.insert("/a/:x/two", 2), Ok(()));
    assert_eq!(tree.insert("/a/:x/two/three", 3), Ok(()));
    assert_eq!(tree.insert("/a/:y", 4), conflict("/a/:x/two/three"));
    checked(&tree, 3);
}

#[test]
fn failed_insert_leaves_the_tree() {
    let mut tree = Node::default();
    assert_eq!(tree.insert("/users/all", 1), Ok(()));
    assert_eq!(tree.insert("/users/:id/:", 2), Err(InsertError::UnnamedParam));
    assert_eq!(tree.insert("/us/*x/y", 2), Err(InsertError::InvalidCatchAll));
    assert_eq!(tree.prefix(), b"/users/all");
    assert!(tree.children().is_empty());
    checked(&tree, 1);
}

#[test]
fn split_keeps_values_and_priorities() {
    let mut tree = Node::default();
    assert_eq!(tree.insert("/search", 1), Ok(()));
    assert_eq!(tree.insert("/support", 2), Ok(()));
    assert_eq!(tree.prefix(), b"/s");
    assert_eq!(tree.indices(), b"eu");
    assert_eq!(tree.kind(), NodeType::Root);
    assert!(tree.value().is_none());
    assert_eq!(tree.children()[0].prefix(), b"earch");
    assert_eq!(tree.children()[0].value(), Some(&1));
    assert_eq!(tree.children()[1].prefix(), b"upport");
    assert_eq!(tree.children()[1].kind(), NodeType::Static);
    assert_eq!(tree.insert("/s", 3), Ok(()));
    assert_eq!(tree.value(), Some(&3));
    checked(&tree, 3);
}

#[test]
fn children_are_kept_by_priority() {
    let mut tree = Node::default();
    assert_eq!(tree.insert("/a", 1), Ok(()));
    assert_eq!(tree.insert("/b", 2), Ok(()));
    assert_eq!(tree.insert("/c", 3), Ok(()));
    assert_eq!(tree.indices(), b"abc");
    assert_eq!(tree.insert("/c/1", 4), Ok(()));
    assert_eq!(tree.indices(), b"cab");
    assert_eq!(tree.insert("/b/1", 5), Ok(()));
    assert_eq!(tree.indices(), b"cba");
    assert_eq!(tree.insert("/b/2", 6), Ok(()));
    assert_eq!(tree.indices(), b"bca");
    assert_eq!(tree.children()[0].priority(), 3);
    assert_eq!(tree.children()[1].priority(), 2);
    assert_eq!(tree.children()[2].priority(), 1);
    checked(&tree, 6);
}

#[test]
fn wildcard_child_stays_last() {
    let mut tree = Node::default();
    assert_eq!(tree.insert("/:id", 1), Ok(()));
    assert_eq!(tree.insert("/a", 2), Ok(()));
    assert_eq!(tree.insert("/b", 3), Ok(()));
    assert_eq!(tree.insert("/b/c", 4), Ok(()));
    assert!(tree.has_wild_child());
    assert_eq!(tree.indices(), b"ba");
    assert_eq!(tree.children().len(), 3);
    assert_eq!(tree.children()[2].kind(), NodeType::Param);
    assert_eq!(tree.children()[2].prefix(), b":id");
    checked(&tree, 4);
}

#[test]
fn parameter_indexes_its_child() {
    let mut tree = Node::default();
    assert_eq!(tree.insert("/:id/x", 1), Ok(()));
    let param = &tree.children()[0];
    assert_eq!(param.kind(), NodeType::Param);
    assert_eq!(param.indices(), b"/");
    assert_eq!(param.children()[0].prefix(), b"/x");
    assert_eq!(tree.insert("/:id/y", 2), Ok(()));
    assert_eq!(tree.insert("/:id", 3), Ok(()));
    let param = &tree.children()[0];
    assert_eq!(param.priority(), 3);
    assert_eq!(param.children()[0].prefix(), b"/");
    assert_eq!(param.children()[0].indices(), b"xy");
    checked(&tree, 3);
}

#[test]
fn invariants_after_many_insertions() {
    let routes = [
        "/",
        "/cmd/:tool/",
        "/cmd/:tool/:sub",
        "/cmd/vet",
        "/src/*filepath",
        "/src1/",
        "/search/",
        "/search/:query",
        "/search/invalid",
        "/user_:name",
        "/user_:name/about",
        "/user_x",
        "/files/:dir/*filepath",
        "/doc/",
        "/doc/go_faq.html",
        "/doc/go1.html",
        "/info/:user/public",
        "/info/:user/project/:project",
        "ab",
        "abc",
        "/\u{03b1}",
        "/\u{03b2}",
    ];
    let mut tree = Node::default();
    let mut count = 0;
    for route in routes {
        assert_eq!(tree.insert(route, count), Ok(()));
        count += 1;
        checked(&tree, count);
    }
    for route in routes {
        assert_eq!(tree.insert(route, 0), conflict(route));
        checked(&tree, count);
    }
}

#[test]
fn clone_is_a_tree_of_its_own() {
    let mut tree = Node::default();
    assert_eq!(tree.insert("/a/:x", 1), Ok(()));
    assert_eq!(tree.insert("/a/b", 2), Ok(()));
    let mut copy = tree.clone();
    assert_eq!(copy.insert("/c", 3), Ok(()));
    checked(&tree, 2);
    checked(&copy, 3);
    assert!(tree.at(b"/c").is_err());
    assert_eq!(copy.at(b"/a/b").map(|hit| *hit.0).ok(), Some(2));
    assert_eq!(copy.at(b"/c").map(|hit| *hit.0).ok(), Some(3));
}

#[test]
fn insert_error_messages() {
    assert_eq!(
        InsertError::Conflict {
            with: "/a/:x".to_string()
        }
        .message(),
        "insertion failed due to conflict with previously registered route: /a/:x"
    );
    assert_eq!(
        InsertError::TooManyParams.message(),
        "only one parameter is allowed per path segment"
    );
    assert_eq!(
        InsertError::UnnamedParam.message(),
        "parameters must be registered with a name"
    );
    assert_eq!(
        InsertError::InvalidCatchAll.message(),
        "catch-all parameters are only allowed at the end of a route"
    );
}
