use logdrain::drain::DrainTree;
use logdrain::token::Token;

fn constants(words: &[&str]) -> Vec<Token> {
    words.iter().map(|w| Token::Val(String::from(*w))).collect()
}

fn default_tree() -> DrainTree {
    DrainTree::new(4, 100, 2, 5).unwrap()
}

#[test]
fn invalid_configurations_are_rejected() {
    assert!(DrainTree::new(1, 100, 2, 5).is_none());
    assert!(DrainTree::new(4, 0, 2, 5).is_none());
    assert!(DrainTree::new(4, 100, 3, 2).is_none());
    assert!(DrainTree::new(4, 100, 0, 0).is_none());
    assert!(DrainTree::new(2, 1, 0, 1).is_some());
}

#[test]
fn empty_line_is_not_ingested() {
    let mut tree = default_tree();
    assert!(tree.add_log_line(Vec::new()).is_none());
    assert_eq!(tree.log_groups().len(), 0);
}

#[test]
fn exact_repeats_fold_into_one_cluster() {
    let mut tree = default_tree();
    let line = || {
        let mut t = constants(&["connection", "from", "x", "accepted"]);
        t[2] = Token::new_wildcard(String::from("10.0.0.1"));
        t
    };
    tree.add_log_line(line());
    tree.add_log_line(line());
    let last = tree.add_log_line(line()).unwrap();
    assert_eq!(last.num_matched(), 3);
    let groups = tree.log_groups();
    assert_eq!(groups.len(), 1);
    assert_eq!(
        groups[0].as_detailed_string(),
        "connection from <** [10.0.0.1] **> accepted"
    );
}

#[test]
fn variable_value_widens_into_a_wildcard() {
    let mut tree = default_tree();
    tree.add_log_line(constants(&["user", "alice", "login"]));
    let c = tree.add_log_line(constants(&["user", "bob", "login"])).unwrap();
    assert_eq!(c.num_matched(), 2);
    assert_eq!(c.as_string(), "user <*> login");
    assert_eq!(c.as_detailed_string(), "user <** [alice, bob] **> login");
    assert_eq!(tree.log_groups().len(), 1);
}

#[test]
fn different_lengths_never_merge() {
    let mut tree = default_tree();
    tree.add_log_line(constants(&["a", "b", "c"]));
    tree.add_log_line(constants(&["a", "b", "c", "d"]));
    let groups = tree.log_groups();
    assert_eq!(groups.len(), 2);
    assert_eq!(groups[0].num_matched(), 1);
    assert_eq!(groups[1].num_matched(), 1);
}

#[test]
fn saturated_fanout_routes_under_the_wildcard_child() {
    let mut tree = DrainTree::new(4, 2, 2, 5).unwrap();
    tree.add_log_line(constants(&["x", "y"]));
    tree.add_log_line(constants(&["y", "y"]));
    let third = tree.add_log_line(constants(&["z", "y"])).unwrap();
    assert_eq!(third.as_string(), "z y");
    let groups = tree.log_groups();
    assert_eq!(groups.len(), 3);
    for g in groups.iter() {
        assert_eq!(g.num_matched(), 1);
    }
}

#[test]
fn sample_set_reaches_exactly_the_cap() {
    let mut tree = default_tree();
    for k in 1..=15 {
        tree.add_log_line(constants(&["event", &format!("id_{}", k), "done"]));
    }
    let groups = tree.log_groups();
    assert_eq!(groups.len(), 1);
    assert_eq!(groups[0].num_matched(), 15);
    assert_eq!(
        groups[0].as_detailed_string(),
        "event <** [id_1, id_10, id_2, id_3, id_4, id_5, id_6, id_7, id_8, id_9] **> done"
    );
}

#[test]
fn reingesting_a_matched_line_finds_its_cluster_again() {
    let mut tree = default_tree();
    tree.add_log_line(constants(&["job", "17", "started"]));
    tree.add_log_line(constants(&["job", "18", "started"]));
    let again = tree.add_log_line(constants(&["job", "17", "started"])).unwrap();
    assert_eq!(again.num_matched(), 3);
    assert_eq!(tree.log_groups().len(), 1);
}

#[test]
fn identical_ingest_sequences_render_identically() {
    let lines: Vec<Vec<&str>> = vec![
        vec!["user", "alice", "login"],
        vec!["user", "bob", "login"],
        vec!["a", "b", "c"],
        vec!["a", "b", "c", "d"],
        vec!["user", "carol", "login"],
        vec!["a", "b", "x"],
    ];
    let mut t1 = default_tree();
    let mut t2 = default_tree();
    for l in lines.iter() {
        t1.add_log_line(constants(l));
        t2.add_log_line(constants(l));
    }
    let g1 = t1.log_groups();
    let g2 = t2.log_groups();
    assert_eq!(g1.len(), g2.len());
    for (a, b) in g1.iter().zip(g2.iter()) {
        assert_eq!(a.as_string_with_count(), b.as_string_with_count());
        assert_eq!(a.as_detailed_string(), b.as_detailed_string());
    }
}

#[test]
fn hot_clusters_are_tried_first() {
    let mut tree = default_tree();
    tree.add_log_line(constants(&["task", "alpha", "ok"]));
    tree.add_log_line(constants(&["task", "beta", "failed"]));
    // the second cluster sits at the front; matching the first moves it back up
    tree.add_log_line(constants(&["task", "alpha", "ok"]));
    let groups = tree.log_groups();
    assert_eq!(groups.len(), 2);
    assert_eq!(groups[0].num_matched(), 2);
    assert_eq!(groups[0].as_string(), "task alpha ok");
}

#[test]
fn deeper_trees_pad_short_lines_with_the_wildcard_key() {
    let mut tree = DrainTree::new(6, 100, 2, 5).unwrap();
    let c1 = tree.add_log_line(constants(&["up"])).unwrap();
    assert_eq!(c1.num_matched(), 1);
    let c2 = tree.add_log_line(constants(&["up"])).unwrap();
    assert_eq!(c2.num_matched(), 2);
    assert_eq!(tree.log_groups().len(), 1);
}

#[test]
fn minimum_depth_keeps_one_leaf_per_length() {
    let mut tree = DrainTree::new(2, 5, 0, 1).unwrap();
    tree.add_log_line(constants(&["a", "b"]));
    let c = tree.add_log_line(constants(&["c", "d"])).unwrap();
    // with a zero threshold everything of one length joins the same cluster
    assert_eq!(c.num_matched(), 2);
    assert_eq!(c.as_string(), "<*> <*>");
}

#[test]
fn ties_prefer_the_most_recently_created_cluster() {
    let mut tree = DrainTree::new(4, 100, 3, 5).unwrap();
    tree.add_log_line(constants(&["op", "read", "done"]));
    tree.add_log_line(constants(&["op", "write", "fail"]));
    // the third line scores 2/3 against both clusters; the tie goes to the
    // front of the list, which holds the younger cluster
    let c = tree.add_log_line(constants(&["op", "read", "fail"])).unwrap();
    assert_eq!(c.num_matched(), 2);
    assert_eq!(c.as_string(), "op <*> fail");
    assert_eq!(tree.log_groups().len(), 2);
}

#[test]
fn short_lines_route_through_their_own_bucket() {
    let mut tree = default_tree();
    let c1 = tree.add_log_line(constants(&["ping"])).unwrap();
    assert_eq!(c1.num_matched(), 1);
    let c2 = tree.add_log_line(constants(&["ping"])).unwrap();
    assert_eq!(c2.num_matched(), 2);
    assert_eq!(tree.log_groups().len(), 1);
}
