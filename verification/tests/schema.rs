use hornbeam::{find_example, parse_root, Child, Finder, Language, Schema};

#[test]
fn schema_matches_same_shape() {
    let a = parse_root(Language::Rust, "fn a() {}").unwrap();
    let s = Schema::from(&a);
    let b = parse_root(Language::Rust, "fn b() {}").unwrap();
    assert!(s.matches(&b));
    let c = parse_root(Language::Rust, "let x = 5;").unwrap();
    assert!(!s.matches(&c));
}

#[test]
fn finder_matches_kind() {
    let a = parse_root(Language::Rust, "fn a() {}").unwrap();
    let f = Finder::Kind(a.kind);
    assert!(f.matches(&a));
    match &a.children[0] {
        Child::Node(n) => assert!(!f.matches(n)),
        Child::Text(_) => panic!("expected a structural child"),
    }
}

#[test]
fn finder_matches_schema() {
    let a = parse_root(Language::Rust, "fn a() {}").unwrap();
    let f = Finder::Schema(Schema::from(&a));
    assert!(f.matches(&a));
    let c = parse_root(Language::Rust, "let x = 5;").unwrap();
    assert!(!f.matches(&c));
}

#[test]
fn find_example_narrows_to_smallest_node() {
    let root = parse_root(Language::Rust, "fn alpha() { beta(); }").unwrap();
    let found = find_example(&root, "beta").unwrap();
    assert_eq!(found.text(), String::from("beta"));
    assert!(find_example(&root, "absent").is_none());
}

#[test]
fn find_example_keeps_the_whole_node() {
    let root = parse_root(Language::Rust, "fn alpha() { beta(); }").unwrap();
    let found = find_example(&root, "beta();").unwrap();
    assert_eq!(found.text(), String::from("beta();"));
}
