use logdrain::log_cluster::{GroupSimilarity, LogCluster};
use logdrain::token::Token;

fn constants(words: &[&str]) -> Vec<Token> {
    words.iter().map(|w| Token::Val(String::from(*w))).collect()
}

#[test]
fn new_cluster_counts_one() {
    let c = LogCluster::new(constants(&["a", "b", "c"]));
    assert_eq!(c.num_matched(), 1);
    assert_eq!(c.as_string(), "a b c");
}

#[test]
fn similarity_counts_exact_and_wildcard_positions() {
    let mut tokens = constants(&["user", "alice", "login"]);
    tokens[1] = Token::new_empty_wildcard();
    let c = LogCluster::new(tokens);
    let s = c.similarity(&constants(&["user", "bob", "login"]));
    assert_eq!(s.exact_matched, 2);
    assert_eq!(s.token_count, 3);
    assert_eq!(s.approximate_similarity, 1);
}

#[test]
fn similarity_wildcard_never_counts_as_exact() {
    let mut tokens = constants(&["a", "b"]);
    tokens[0] = Token::new_empty_wildcard();
    let c = LogCluster::new(tokens);
    let mut cand = constants(&["x", "b"]);
    cand[0] = Token::new_empty_wildcard();
    let s = c.similarity(&cand);
    assert_eq!(s.exact_matched, 1);
    assert_eq!(s.approximate_similarity, 1);
}

#[test]
fn similarity_order_compares_exact_then_approximate() {
    let a = GroupSimilarity { exact_matched: 2, token_count: 4, approximate_similarity: 0 };
    let b = GroupSimilarity { exact_matched: 1, token_count: 4, approximate_similarity: 3 };
    assert!(a.is_better_than(&b));
    assert!(!b.is_better_than(&a));
    let c = GroupSimilarity { exact_matched: 2, token_count: 4, approximate_similarity: 1 };
    assert!(c.is_better_than(&a));
    assert!(!a.is_better_than(&a));
}

#[test]
fn threshold_is_a_fraction_of_the_length() {
    let s = GroupSimilarity { exact_matched: 2, token_count: 5, approximate_similarity: 0 };
    assert!(s.meets_threshold(2, 5));
    assert!(!s.meets_threshold(1, 2));
    assert!(s.meets_threshold(0, 1));
}

#[test]
fn add_log_keeps_the_old_constant_as_a_sample() {
    let mut c = LogCluster::new(constants(&["user", "alice", "login"]));
    c.add_log(&constants(&["user", "bob", "login"]));
    assert_eq!(c.num_matched(), 2);
    assert_eq!(c.as_string(), "user <*> login");
    assert_eq!(c.as_detailed_string(), "user <** [alice, bob] **> login");
}

#[test]
fn add_log_ignores_an_incoming_wildcard_on_a_constant() {
    let mut c = LogCluster::new(constants(&["a", "b"]));
    let mut cand = constants(&["a", "b"]);
    cand[0] = Token::new_wildcard(String::from("other"));
    c.add_log(&cand);
    assert_eq!(c.as_string(), "a b");
    assert_eq!(c.num_matched(), 2);
}

#[test]
fn add_log_absorbs_incoming_wildcard_samples() {
    let mut tokens = constants(&["conn", "x"]);
    tokens[1] = Token::new_empty_wildcard();
    let mut c = LogCluster::new(tokens);
    let mut cand = constants(&["conn", "x"]);
    cand[1] = Token::new_wildcard(String::from("10.0.0.1"));
    c.add_log(&cand);
    assert_eq!(c.as_detailed_string(), "conn <** [10.0.0.1] **>");
}

#[test]
fn extract_variables_returns_wildcard_positions_in_order() {
    let mut tokens = constants(&["get", "path", "from", "host"]);
    tokens[1] = Token::new_empty_wildcard();
    tokens[3] = Token::new_empty_wildcard();
    let c = LogCluster::new(tokens);
    let vars = c.extract_variables(&constants(&["get", "/idx", "from", "web01"]));
    assert_eq!(vars, vec![String::from("/idx"), String::from("web01")]);
}

#[test]
fn similarity_of_empty_templates_is_empty() {
    let c = LogCluster::new(Vec::new());
    let s = c.similarity(&Vec::new());
    assert_eq!(s.exact_matched, 0);
    assert_eq!(s.token_count, 0);
    assert_eq!(s.approximate_similarity, 0);
}

#[test]
fn counter_renders_all_digits() {
    let mut c = LogCluster::new(constants(&["beat"]));
    for _ in 0..11 {
        c.add_log(&constants(&["beat"]));
    }
    assert_eq!(c.as_string_with_count(), "beat, count [12] ");
}

#[test]
fn rendering_with_count_follows_the_wire_convention() {
    let mut c = LogCluster::new(constants(&["a", "b", "c"]));
    c.add_log(&constants(&["a", "b", "d"]));
    assert_eq!(c.as_string_with_count(), "a b <*>, count [2] ");
}
