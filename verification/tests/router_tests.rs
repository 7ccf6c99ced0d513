use path_router::trie::{DuplicateRoute, Tree};

fn pair(name: &str, value: &str) -> (String, String) {
    (name.to_string(), value.to_string())
}

#[test]
fn can_add_and_find() {
    let mut routes = Tree::new();
    routes.add("/", 0).unwrap();
    routes.add("/var", 1).unwrap();
    routes.add("/var/www", 11).unwrap();
    routes.add("/var/log", 12).unwrap();
    assert_eq!(routes.find("/vax"), None);
    assert_eq!(routes.find("/var/something"), None);
    assert_eq!(routes.find("////"), Some((&0, vec![])));
    assert_eq!(routes.find("//var//"), Some((&1, vec![])));
    assert_eq!(routes.find("/var/www/"), Some((&11, vec![])));
    assert_eq!(routes.find("/var/log/"), Some((&12, vec![])));
}

#[test]
fn can_add_and_capture_and_find() {
    let mut routes = Tree::new();
    routes.add("/user/:username", 11).unwrap();
    routes.add("/user/:username/:intent/show", 111).unwrap();
    routes.add("/user/:username/profile", 112).unwrap();
    assert_eq!(routes.find("/user/myname/delete"), None);
    assert_eq!(routes.find("/user/myname/cook/throw"), None);
    assert_eq!(
        routes.find("/user/myname"),
        Some((&11, vec![pair("username", "myname")]))
    );
    assert_eq!(
        routes.find("/user/myname/profile"),
        Some((&112, vec![pair("username", "myname")]))
    );
    assert_eq!(
        routes.find("/user/myname/cook/show"),
        Some((&111, vec![pair("username", "myname"), pair("intent", "cook")]))
    );
}

#[test]
fn can_match_longest_prefix_with_remaining() {
    let mut routes = Tree::new();
    routes.add("/a", 1).unwrap();
    routes.add("/a/b", 2).unwrap();
    routes.add("/a/b/c", 3).unwrap();
    assert_eq!(routes.find("/a"), Some((&1, vec![])));
    assert_eq!(routes.find("/a/b"), Some((&2, vec![])));
    assert_eq!(routes.find("/a/b/c"), Some((&3, vec![])));
    assert_eq!(
        routes.find("/a/b/c/d"),
        Some((&3, vec![pair("_remaining", "d")]))
    );
    assert_eq!(
        routes.find("/a/b/x"),
        Some((&2, vec![pair("_remaining", "b/x")]))
    );
    assert_eq!(
        routes.find("/a/b/c/d/e/f"),
        Some((&3, vec![pair("_remaining", "c/d/e/f")]))
    );
}

#[test]
fn slash_variants_behave_identically() {
    let mut routes = Tree::new();
    routes.add("/", 0).unwrap();
    assert_eq!(routes.find("////"), Some((&0, vec![])));
    assert_eq!(routes.find(""), Some((&0, vec![])));

    let mut more = Tree::new();
    more.add("a/b", 7).unwrap();
    assert_eq!(more.find("/a//b/"), Some((&7, vec![])));
    assert_eq!(more.find("a/b"), Some((&7, vec![])));
    assert_eq!(more.find("//a/b//"), Some((&7, vec![])));
}

#[test]
fn duplicate_route_is_rejected() {
    let mut routes = Tree::new();
    routes.add("/dup/x", 1).unwrap();
    assert_eq!(routes.add("/dup/x", 2), Err(DuplicateRoute));
    assert_eq!(routes.find("/dup/x"), Some((&1, vec![])));
}

#[test]
fn duplicate_after_slash_normalization_is_rejected() {
    let mut routes = Tree::new();
    routes.add("/a//b/", 1).unwrap();
    assert_eq!(routes.add("a/b", 2), Err(DuplicateRoute));
    assert_eq!(routes.find("/a/b"), Some((&1, vec![])));
}

#[test]
fn duplicate_capture_position_is_rejected() {
    let mut routes = Tree::new();
    routes.add("/u/:a", 1).unwrap();
    assert_eq!(routes.add("/u/:b", 2), Err(DuplicateRoute));
    assert_eq!(routes.find("/u/anything"), Some((&1, vec![pair("a", "anything")])));
}

#[test]
fn capture_names_ordered_by_depth() {
    let mut routes = Tree::new();
    routes.add("/x/:p/:q/end", 1).unwrap();
    routes.add("/x/:p/other", 2).unwrap();
    assert_eq!(
        routes.find("/x/one/two/end"),
        Some((&1, vec![pair("p", "one"), pair("q", "two")]))
    );
    assert_eq!(routes.find("/x/one/other"), Some((&2, vec![pair("p", "one")])));

    let mut reversed = Tree::new();
    reversed.add("/x/:p/other", 2).unwrap();
    reversed.add("/x/:p/:q/end", 1).unwrap();
    assert_eq!(
        reversed.find("/x/one/two/end"),
        Some((&1, vec![pair("p", "one"), pair("q", "two")]))
    );
    assert_eq!(reversed.find("/x/one/other"), Some((&2, vec![pair("p", "one")])));
}

#[test]
fn lookups_do_not_mutate() {
    let mut routes = Tree::new();
    routes.add("/a", 1).unwrap();
    routes.add("/a/:x", 2).unwrap();
    routes.add("/a/b/c", 3).unwrap();
    let before = (
        routes.find("/a"),
        routes.find("/a/k"),
        routes.find("/a/b/c"),
        routes.find("/nothing/here"),
    );
    for _ in 0..100 {
        routes.find("/a/b/c");
        routes.find("/a/k");
        routes.find("/zzz");
        routes.find("");
    }
    let after = (
        routes.find("/a"),
        routes.find("/a/k"),
        routes.find("/a/b/c"),
        routes.find("/nothing/here"),
    );
    assert_eq!(before, after);
}

#[test]
fn bare_root_is_no_catch_all() {
    let mut routes = Tree::new();
    routes.add("/", 0).unwrap();
    assert_eq!(routes.find(""), Some((&0, vec![])));
    assert_eq!(routes.find("/x"), None);
}

#[test]
fn capture_leaf_is_no_catch_all() {
    let mut routes = Tree::new();
    routes.add("/u/:a", 1).unwrap();
    assert_eq!(routes.find("/u/x"), Some((&1, vec![pair("a", "x")])));
    assert_eq!(routes.find("/u/x/y"), None);
}

#[test]
fn literal_leaf_swallows_one_trailing_segment() {
    let mut routes = Tree::new();
    routes.add("/files/archive", 9).unwrap();
    assert_eq!(
        routes.find("/files/archive/today"),
        Some((&9, vec![pair("_remaining", "today")]))
    );
    assert_eq!(routes.find("/files/archive"), Some((&9, vec![])));
}

#[test]
fn exact_beats_capture() {
    let mut routes = Tree::new();
    routes.add("/f/stat", 1).unwrap();
    routes.add("/f/:name", 2).unwrap();
    assert_eq!(routes.find("/f/stat"), Some((&1, vec![])));
    assert_eq!(routes.find("/f/dyn"), Some((&2, vec![pair("name", "dyn")])));
}

#[test]
fn capture_values_come_from_the_path() {
    let mut routes = Tree::new();
    routes.add("/:head", 5).unwrap();
    assert_eq!(routes.find("/value"), Some((&5, vec![pair("head", "value")])));
    assert_eq!(routes.find("/other"), Some((&5, vec![pair("head", "other")])));
}
