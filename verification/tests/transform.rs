use hornbeam::{Child, Kind, Language, SyntaxNode, Pattern, Program, Repeat, RuleError, Variadic};

#[test]
fn test_pattern() {
    let p = Program::parse(Language::Rust, Language::Rust, "fn a() {}", "fn a();", &["a"])
        .unwrap();
    let r = p.apply("fn abcd() {}").unwrap();
    assert_eq!(r, Some(String::from("fn abcd();")));
}

#[test]
fn test_pattern_cross() {
    let p = Program::parse(
        Language::Rust,
        Language::Javascript,
        "fn a() {}",
        "function a() {}",
        &["a"],
    )
    .unwrap();
    let r = p.apply("fn abcd() {}").unwrap();
    assert_eq!(r, Some(String::from("function abcd() {}")));
}

#[test]
fn round_trip_self() {
    let p = Program::parse(Language::Rust, Language::Rust, "fn a() {}", "fn a();", &["a"])
        .unwrap();
    let r = p.apply("fn a() {}").unwrap();
    assert_eq!(r, Some(String::from("fn a();")));
}

#[test]
fn round_trip_cross_self() {
    let p = Program::parse(
        Language::Rust,
        Language::Javascript,
        "fn a() {}",
        "function a() {}",
        &["a"],
    )
    .unwrap();
    let r = p.apply("fn a() {}").unwrap();
    assert_eq!(r, Some(String::from("function a() {}")));
}

#[test]
fn structural_mismatch_rejects() {
    let p = Program::parse(Language::Rust, Language::Rust, "fn a() {}", "fn a();", &["a"])
        .unwrap();
    let r = p.apply("let x = 5;").unwrap();
    assert_eq!(r, None);
}

#[test]
fn literal_gaps_survive_long_bindings() {
    let p = Program::parse(Language::Rust, Language::Rust, "fn a() {}", "fn a( ) { }", &["a"])
        .unwrap();
    let r = p.apply("fn quite_a_long_name() {}").unwrap();
    assert_eq!(r, Some(String::from("fn quite_a_long_name( ) { }")));
}

#[test]
fn second_placeholder_faults() {
    let p = Program::parse(
        Language::Rust,
        Language::Rust,
        "fn a(a: u32) {}",
        "fn a();",
        &["a"],
    )
    .unwrap();
    let r = p.apply("fn a(a: u32) {}");
    assert_eq!(r, Err(RuleError::SecondBinding));
}

#[test]
fn unbound_placeholder_faults() {
    let p = Program::parse(Language::Rust, Language::Rust, "fn b() {}", "fn a();", &["a"])
        .unwrap();
    let r = p.apply("fn b() {}");
    assert_eq!(r, Err(RuleError::UnboundPlaceholder));
}

#[test]
fn missing_grammar_is_a_parse_error() {
    let r = Program::parse(Language::Python, Language::Rust, "x = 1", "fn a();", &["a"]);
    assert!(matches!(r, Err(RuleError::Parse)));
}

#[test]
fn unsupported_repeat_faults() {
    let v = Variadic { pattern: Pattern::TextLiteral(String::from("x")), repeat: Repeat::Many };
    assert_eq!(v.replace(&None), Err(RuleError::UnsupportedRepeat));
    let v = Variadic {
        pattern: Pattern::TextLiteral(String::from("x")),
        repeat: Repeat::Single,
    };
    assert_eq!(v.replace(&None), Ok(String::from("x")));
}

#[test]
fn text_var_render_faults() {
    let p = Pattern::TextVar;
    assert_eq!(p.replace(&Some(String::from("y"))), Err(RuleError::UnsupportedTextVar));
}

#[test]
fn node_var_render_needs_binding() {
    let p = Pattern::NodeVar;
    assert_eq!(p.replace(&None), Err(RuleError::UnboundPlaceholder));
    assert_eq!(p.replace(&Some(String::from("y"))), Ok(String::from("y")));
}

#[test]
fn compile_localizes_placeholder() {
    let leaf = SyntaxNode { kind: Kind(3), children: vec![Child::Text(String::from("hello"))] };
    let p = Pattern::parse(&leaf, &["ell"]);
    assert!(matches!(p, Pattern::NodeVar));
    let p = Pattern::parse(&leaf, &["absent"]);
    assert!(matches!(p, Pattern::Node { .. }));
}

#[test]
fn check_binds_whole_node_text() {
    let leaf = SyntaxNode { kind: Kind(3), children: vec![Child::Text(String::from("hello"))] };
    let p = Pattern::parse(&leaf, &["ell"]);
    let other = SyntaxNode { kind: Kind(9), children: vec![Child::Text(String::from("world"))] };
    let mut binding: Option<String> = None;
    assert_eq!(p.check(&other, &mut binding), Ok(true));
    assert_eq!(binding, Some(String::from("world")));
}

#[test]
fn check_second_binding_is_fatal() {
    let leaf = SyntaxNode { kind: Kind(3), children: vec![Child::Text(String::from("hello"))] };
    let p = Pattern::parse(&leaf, &["ell"]);
    let other = SyntaxNode { kind: Kind(9), children: vec![Child::Text(String::from("world"))] };
    let mut binding: Option<String> = Some(String::from("taken"));
    assert_eq!(p.check(&other, &mut binding), Err(RuleError::SecondBinding));
    assert_eq!(binding, Some(String::from("taken")));
}

#[test]
fn check_enforces_kind_and_literals() {
    let a = SyntaxNode { kind: Kind(3), children: vec![Child::Text(String::from("x"))] };
    let p = Pattern::parse(&a, &[]);
    let same = SyntaxNode { kind: Kind(3), children: vec![Child::Text(String::from("x"))] };
    let other_kind = SyntaxNode { kind: Kind(4), children: vec![Child::Text(String::from("x"))] };
    let other_text = SyntaxNode { kind: Kind(3), children: vec![Child::Text(String::from("y"))] };
    let mut binding: Option<String> = None;
    assert_eq!(p.check(&same, &mut binding), Ok(true));
    assert_eq!(p.check(&other_kind, &mut binding), Ok(false));
    assert_eq!(p.check(&other_text, &mut binding), Ok(false));
}

#[test]
fn node_text_concatenates_children() {
    let inner = SyntaxNode { kind: Kind(2), children: vec![Child::Text(String::from("bc"))] };
    let n = SyntaxNode {
        kind: Kind(1),
        children: vec![
            Child::Text(String::from("a")),
            Child::Node(inner),
            Child::Text(String::from("d")),
        ],
    };
    assert_eq!(n.text(), String::from("abcd"));
}

#[test]
fn parse_root_rebuilds_the_text() {
    let root = hornbeam::parse_root(Language::Rust, "fn a( ) {  }").unwrap();
    assert_eq!(root.text(), String::from("fn a( ) {  }"));
    assert!(!root.children.is_empty());
    assert!(hornbeam::parse_root(Language::Python, "x = 1").is_none());
}
