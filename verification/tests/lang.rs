use hornbeam::{find_lang, Example, Examples, Language, LanguageInfo};

#[test]
fn extensions_name_languages() {
    assert_eq!(Language::from_extension("rs"), Some(Language::Rust));
    assert_eq!(Language::from_extension("js"), Some(Language::Javascript));
    assert_eq!(Language::from_extension("py"), Some(Language::Python));
    assert_eq!(Language::from_extension("hs"), Some(Language::Haskell));
    assert_eq!(Language::from_extension("xyz"), None);
    assert_eq!(Language::from_extension(""), None);
}

#[test]
fn names_name_languages() {
    assert_eq!(Language::from_str("rust"), Some(Language::Rust));
    assert_eq!(Language::from_str("c-sharp"), Some(Language::CSharp));
    assert_eq!(Language::from_str("javascript"), Some(Language::Javascript));
    assert_eq!(Language::from_str("klingon"), None);
}

#[test]
fn find_lang_reads_the_marker() {
    assert_eq!(find_lang("lang: rust"), Some(Language::Rust));
    assert_eq!(find_lang("# lang:\tpython  "), Some(Language::Python));
    assert_eq!(find_lang("no marker here"), None);
    assert_eq!(find_lang("lang: klingon"), None);
}

#[test]
fn kind_table_of_rust() {
    let info = LanguageInfo::new(Language::Rust).unwrap();
    assert!(!info.kind_names().is_empty());
    let k = info.kind_from_name("function_item").unwrap();
    assert_eq!(info.kind_names()[k.0 as usize], "function_item");
    assert!(info.kind_from_name("no_such_kind_name").is_none());
}

#[test]
fn kind_table_needs_a_grammar() {
    assert!(LanguageInfo::new(Language::Python).is_none());
}

#[test]
fn example_names_split() {
    let ex = Example::new(String::from("greet-1.rs"), String::from("fn a() {}")).unwrap();
    assert_eq!(ex.label, String::from("greet"));
    assert_eq!(ex.group, String::from("1"));
    assert_eq!(ex.lang, Language::Rust);
    assert_eq!(ex.filename, String::from("greet-1.rs"));
    assert_eq!(ex.text, String::from("fn a() {}"));

    let ex = Example::new(String::from("with-dash-2.js"), String::from("x")).unwrap();
    assert_eq!(ex.label, String::from("with-dash"));
    assert_eq!(ex.group, String::from("2"));
    assert_eq!(ex.lang, Language::Javascript);
}

#[test]
fn example_names_reject_bad_shapes() {
    assert!(Example::new(String::from("nodashordot"), String::from("x")).is_none());
    assert!(Example::new(String::from("nodot-1"), String::from("x")).is_none());
    assert!(Example::new(String::from("nodash.rs"), String::from("x")).is_none());
    assert!(Example::new(String::from("a.b-c"), String::from("x")).is_none());
    assert!(Example::new(String::from("bad-ext.xyz"), String::from("x")).is_none());
}

#[test]
fn examples_group_by_label_and_group() {
    let mut corpus = Examples::new();
    let a = corpus
        .insert(Example::new(String::from("greet-1.rs"), String::from("fn a() {}")).unwrap());
    let b = corpus
        .insert(Example::new(String::from("greet-2.rs"), String::from("fn b() {}")).unwrap());
    let c = corpus
        .insert(Example::new(String::from("other-1.rs"), String::from("fn c() {}")).unwrap());
    assert_eq!(corpus.list.len(), 3);
    assert_eq!(corpus.by_label.len(), 2);
    assert_eq!(corpus.by_label[0].0, String::from("greet"));
    assert_eq!(corpus.by_label[0].1, vec![a, b]);
    assert_eq!(corpus.by_label[1].0, String::from("other"));
    assert_eq!(corpus.by_label[1].1, vec![c]);
    assert_eq!(corpus.by_group.len(), 2);
    assert_eq!(corpus.by_group[0].0, String::from("1"));
    assert_eq!(corpus.by_group[0].1, vec![a, c]);
    assert_eq!(corpus.by_group[1].0, String::from("2"));
    assert_eq!(corpus.by_group[1].1, vec![b]);
}

#[test]
fn text_search_matches_std() {
    assert!(hornbeam::contains_str("hello world", "lo wo"));
    assert!(hornbeam::contains_str("hello", ""));
    assert!(!hornbeam::contains_str("hello", "worlds"));
    assert!(hornbeam::str_eq("same", "same"));
    assert!(!hornbeam::str_eq("same", "sane"));
    assert_eq!(hornbeam::trim_str("  padded\t\n"), "padded");
    assert_eq!(hornbeam::trim_str("\n \t "), "");
    assert_eq!(hornbeam::trim_str("bare"), "bare");
}
