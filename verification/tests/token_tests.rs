use logdrain::token::{token_from_str, Token};

#[test]
fn wildcard_starts_with_seed() {
    let t = Token::new_wildcard(String::from("10.0.0.1"));
    assert!(t.is_wildcard());
    assert_eq!(t.as_string(), "<*>");
    assert_eq!(t.as_string_vector(), Some(vec![String::from("10.0.0.1")]));
}

#[test]
fn wildcard_from_constant_token() {
    let c = Token::Val(String::from("alice"));
    assert!(!c.is_wildcard());
    let w = Token::new_wildcard_from_token(c);
    assert!(w.is_wildcard());
    assert_eq!(w.as_string_vector(), Some(vec![String::from("alice")]));
}

#[test]
fn empty_wildcard_has_no_samples() {
    let t = Token::new_empty_wildcard();
    assert!(t.is_wildcard());
    assert_eq!(t.as_string_vector(), Some(vec![]));
    assert_eq!(t.as_detailed_string(), "<** [] **>");
}

#[test]
fn constant_renders_literal() {
    let t = Token::Val(String::from("login"));
    assert_eq!(t.as_string(), "login");
    assert_eq!(t.as_detailed_string(), "login");
    assert_eq!(t.as_string_vector(), None);
}

#[test]
fn absorb_keeps_samples_sorted_and_distinct() {
    let mut t = Token::new_empty_wildcard();
    t.add_token_if_wildcard(&Token::Val(String::from("bob")));
    t.add_token_if_wildcard(&Token::Val(String::from("alice")));
    t.add_token_if_wildcard(&Token::Val(String::from("bob")));
    assert_eq!(
        t.as_string_vector(),
        Some(vec![String::from("alice"), String::from("bob")])
    );
    assert_eq!(t.as_detailed_string(), "<** [alice, bob] **>");
}

#[test]
fn absorb_into_constant_is_a_noop() {
    let mut t = Token::Val(String::from("fixed"));
    t.add_token_if_wildcard(&Token::Val(String::from("other")));
    assert_eq!(t.as_string(), "fixed");
    assert_eq!(t.as_string_vector(), None);
}

#[test]
fn sample_set_caps_at_ten() {
    let mut t = Token::new_empty_wildcard();
    for k in 0..15 {
        t.add_token_if_wildcard(&Token::Val(format!("v{:02}", k)));
    }
    let samples = t.as_string_vector().unwrap();
    assert_eq!(samples.len(), 10);
    assert_eq!(samples[0], "v00");
    assert_eq!(samples[9], "v09");
}

#[test]
fn absorbed_wildcard_renders_placeholder() {
    let mut t = Token::new_empty_wildcard();
    t.add_token_if_wildcard(&Token::new_empty_wildcard());
    assert_eq!(
        t.as_string_vector(),
        Some(vec![String::from("<*>")])
    );
}

#[test]
fn serialized_form_round_trips_lossily() {
    // a constant comes back as itself
    let c = Token::Val(String::from("accepted"));
    let back = token_from_str(c.as_string().as_str());
    assert_eq!(back.as_string(), "accepted");
    assert!(!back.is_wildcard());

    // a wildcard comes back as an empty wildcard: samples are not persisted
    let mut w = Token::new_wildcard(String::from("10.0.0.1"));
    w.add_token_if_wildcard(&Token::Val(String::from("8.8.8.8")));
    let back = token_from_str(w.as_string().as_str());
    assert!(back.is_wildcard());
    assert_eq!(back.as_string_vector(), Some(vec![]));
}
