use word_chain::route::{down_all, match_route, up_all, RouteError, RouteTree};

fn tree_a_b() -> RouteTree {
    let mut tree = RouteTree::new("");
    let a = tree.add_child(0, "a").unwrap();
    tree.add_child(a, "b").unwrap();
    tree
}

fn account_tree() -> RouteTree {
    let mut tree = RouteTree::new("");
    let account = tree.add_child(0, "account").unwrap();
    tree.add_child(account, "*").unwrap();
    tree
}

#[test]
fn test_route_a() {
    let tree = tree_a_b();
    let req = match_route("/a", &tree).unwrap();
    assert_eq!(tree.name(req), "a");
}

#[test]
fn test_route_ab() {
    let tree = tree_a_b();
    let req = match_route("/a/b", &tree).unwrap();
    assert_eq!(tree.name(req), "b");
}

#[test]
fn account_path_with_id_reaches_wildcard() {
    let tree = account_tree();
    let node = match_route("/account/99", &tree).unwrap();
    assert_eq!(tree.name(node), "*");
}

#[test]
fn account_path_reaches_account() {
    let tree = account_tree();
    let node = match_route("/account", &tree).unwrap();
    assert_eq!(tree.name(node), "account");
}

#[test]
fn unknown_path_has_no_route() {
    let tree = account_tree();
    assert_eq!(match_route("/unknown", &tree), None);
}

#[test]
fn empty_path_is_the_root() {
    let tree = account_tree();
    assert_eq!(match_route("", &tree), Some(0));
    assert_eq!(match_route("/", &tree), Some(0));
}

#[test]
fn empty_segments_are_skipped() {
    let tree = account_tree();
    let node = match_route("//account//7/", &tree).unwrap();
    assert_eq!(tree.name(node), "*");
}

#[test]
fn leaf_has_no_further_route() {
    let tree = account_tree();
    assert_eq!(match_route("/account/7/more", &tree), None);
}

#[test]
fn exact_name_wins_over_wildcard() {
    let mut tree = RouteTree::new("");
    let wild = tree.add_child(0, "*").unwrap();
    let login = tree.add_child(0, "login").unwrap();
    assert_eq!(match_route("/login", &tree), Some(login));
    assert_eq!(match_route("/other", &tree), Some(wild));
}

#[test]
fn duplicate_child_name_is_refused() {
    let mut tree = RouteTree::new("");
    tree.add_child(0, "a").unwrap();
    assert_eq!(tree.add_child(0, "a"), Err(RouteError::DuplicateName));
    assert_eq!(tree.add_child(5, "b"), Err(RouteError::NoSuchParent));
    assert_eq!(tree.len(), 2);
}

#[test]
fn preorder_lists_node_before_children() {
    let mut tree = RouteTree::new("");
    let a = tree.add_child(0, "a").unwrap();
    let c = tree.add_child(0, "c").unwrap();
    let b = tree.add_child(a, "b").unwrap();
    assert_eq!(tree.preorder(), vec![0, a, b, c]);
}

#[test]
fn bootstrap_runs_hooks_in_preorder() {
    let tree = tree_a_b();
    let mut run = up_all(&tree);
    let mut invoked = Vec::new();
    while let Some(n) = run.next_hook() {
        invoked.push(n);
        run.report(true);
    }
    assert_eq!(invoked, vec![0, 1, 2]);
    assert_eq!(run.outcome(), Some(true));
}

#[test]
fn failed_hook_stops_bootstrap() {
    let tree = tree_a_b();
    let mut run = up_all(&tree);
    let mut invoked = Vec::new();
    while let Some(n) = run.next_hook() {
        invoked.push(n);
        run.report(tree.name(n) != "a");
    }
    assert_eq!(invoked, vec![0, 1]);
    assert_eq!(run.outcome(), Some(false));
}

#[test]
fn shutdown_runs_hooks_in_preorder() {
    let tree = account_tree();
    let mut run = down_all(&tree);
    assert_eq!(run.outcome(), None);
    let mut invoked = Vec::new();
    while let Some(n) = run.next_hook() {
        invoked.push(n);
        run.report(true);
    }
    assert_eq!(invoked, vec![0, 1, 2]);
}
