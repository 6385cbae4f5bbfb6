use logdrain::grok_generator::{base_patterns, best_pattern_index, is_a_good_pattern, GrokGenerator};
use logdrain::token::Token;

#[test]
fn curated_names_are_recognised() {
    assert!(is_a_good_pattern("IP"));
    assert!(is_a_good_pattern("USERNAME"));
    assert!(is_a_good_pattern("SYSLOGTIMESTAMP"));
    assert!(!is_a_good_pattern("WORD"));
    assert!(!is_a_good_pattern("GREEDYDATA"));
    assert!(!is_a_good_pattern(""));
}

#[test]
fn default_patterns_include_the_curated_ones() {
    let pats = base_patterns();
    assert!(!pats.is_empty());
    assert!(pats.iter().any(|&(name, _)| name == "IP"));
    assert!(pats.iter().any(|&(name, _)| name == "USERNAME"));
}

#[test]
fn best_pattern_index_picks_the_first_highest_positive_score() {
    assert_eq!(best_pattern_index(&vec![0, 3, 3, 1]), Some(1));
    assert_eq!(best_pattern_index(&vec![2, 3, 4]), Some(2));
    assert_eq!(best_pattern_index(&vec![5]), Some(0));
    assert_eq!(best_pattern_index(&vec![0, 0, 0]), None);
    assert_eq!(best_pattern_index(&Vec::new()), None);
}

#[test]
fn ip_samples_score_as_ip() {
    let generator = GrokGenerator::new_with_base_patterns().unwrap();
    let samples = vec![
        String::from("10.0.0.1"),
        String::from("192.168.1.1"),
        String::from("8.8.8.8"),
    ];
    assert_eq!(
        generator.detect_grok_for_a_list_of_string(&samples),
        Some(String::from("%{IP}"))
    );
}

#[test]
fn no_samples_score_nothing() {
    let generator = GrokGenerator::new_with_base_patterns().unwrap();
    assert_eq!(generator.detect_grok_for_a_list_of_string(&Vec::new()), None);
}

#[test]
fn token_grok_detection() {
    let generator = GrokGenerator::new_with_base_patterns().unwrap();

    let constant = Token::Val(String::from("accepted"));
    assert_eq!(constant.detect_best_grok(&generator), "accepted");

    let mut ips = Token::new_wildcard(String::from("10.0.0.1"));
    ips.add_token_if_wildcard(&Token::Val(String::from("192.168.1.1")));
    ips.add_token_if_wildcard(&Token::Val(String::from("8.8.8.8")));
    assert_eq!(ips.detect_best_grok(&generator), "%{IP}");

    let empty = Token::new_empty_wildcard();
    assert_eq!(empty.detect_best_grok(&generator), "<unknown>");
}
