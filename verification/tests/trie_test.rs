use trie_prototype::node::NodeType;
use trie_prototype::trie::Trie;

#[test]
fn monolith() {
    let mut t = Trie::new();

    {
        t.insert("anthem", Some(1));
        t.insert("anthems", Some(9));
        t.insert("anti", Some(2));
        t.insert("anthemion", Some(7));
        t.insert("anthemis", Some(77));
    }

    println!("1 trie is {:#?}", t);

    let v1 = t.search("anthem");
    let v2 = t.search("ant");

    println!("search anthem, result {:?}", v1);
    println!("search ant, result {:?}", v2);

    let v1 = t.search("anthem");
    let v2 = t.search("anthemion");

    println!("search anthem, result {:?}", v1);
    println!("search anthemion, result {:?}", v2);

    let results = t.all_keys("ant");

    println!("\nall keys result {:?}", &results);

    let result = t.longest_prefix("anthemion");
    println!("\nlongest prefix result {:?}", &result);

    let removed;

    println!("2 trie is {:#?}", t);

    {
        removed = t.remove("anthem");
    }

    println!("3 trie is {:#?}", t);

    println!("3 removed is {:?}", removed);

    t.keys();

    println!("4 trie is {:#?}", t);
}

#[test]
fn round_trip() {
    let mut t = Trie::new();
    assert_eq!(t.insert("alpha", Some(41)), None);
    match t.search("alpha") {
        Some((tag, _)) => assert_eq!(tag, NodeType::Key),
        None => panic!("inserted key not found"),
    }
    assert_eq!(t.remove("alpha"), Some(41));
    assert!(t.search("alpha").is_none());
}

#[test]
fn overwrite_preserves_descendants() {
    let mut t = Trie::new();
    t.insert("a", Some(1));
    t.insert("ab", Some(2));
    assert_eq!(t.insert("a", Some(3)), Some(1));
    match t.search("ab") {
        Some((tag, _)) => assert_eq!(tag, NodeType::Key),
        None => panic!("descendant lost on overwrite"),
    }
    assert_eq!(t.remove("a"), Some(3));
}

#[test]
fn pruning_completeness() {
    let mut t = Trie::new();
    t.insert("cat", Some(1));
    t.insert("car", Some(2));
    assert_eq!(t.remove("cat"), Some(1));
    match t.search("ca") {
        Some((tag, _)) => assert_eq!(tag, NodeType::Inner),
        None => panic!("shared prefix node was wrongly pruned"),
    }
    assert!(t.search("cat").is_none());
    match t.search("car") {
        Some((tag, _)) => assert_eq!(tag, NodeType::Key),
        None => panic!("sibling key lost"),
    }
}

#[test]
fn full_prune() {
    let mut t = Trie::new();
    t.insert("dog", Some(9));
    assert_eq!(t.remove("dog"), Some(9));
    let keys = t.all_keys("").expect("root must always resolve");
    assert!(keys.is_empty());
}

#[test]
fn longest_prefix_cases() {
    let mut t = Trie::new();
    t.insert("anthem", Some(1));
    t.insert("anthemion", Some(2));
    assert_eq!(t.longest_prefix("anthemio").as_deref(), Some("anthem"));
    assert_eq!(t.longest_prefix("anthemion").as_deref(), Some("anthemion"));
    assert_eq!(t.longest_prefix("xyz"), None);
}

#[test]
fn enumeration() {
    let mut t = Trie::new();
    t.insert("anthem", Some(1));
    t.insert("anthems", Some(2));
    t.insert("anti", Some(3));
    let mut keys = t.all_keys("an").expect("prefix exists");
    keys.sort();
    assert_eq!(keys, vec![
        "anthem".to_string(),
        "anthems".to_string(),
        "anti".to_string(),
    ]);
    assert_eq!(t.all_keys("xx"), None);
}

#[test]
fn empty_key_rejected() {
    let mut t = Trie::new();
    assert_eq!(t.insert("", Some(5)), None);
    assert_eq!(t.size, 0);
    let keys = t.all_keys("").expect("root must always resolve");
    assert!(keys.is_empty());
}

#[test]
fn size_counts_new_keys_only() {
    let mut t = Trie::new();
    t.insert("ab", Some(1));
    assert_eq!(t.size, 1);
    t.insert("ab", Some(2));
    assert_eq!(t.size, 1);
    t.insert("abc", None);
    assert_eq!(t.size, 2);
    t.insert("abc", Some(7));
    assert_eq!(t.size, 2);
}

#[test]
fn remove_absent_is_noop() {
    let mut t = Trie::new();
    t.insert("stone", Some(4));
    assert_eq!(t.remove("sto"), None);
    assert_eq!(t.remove("stones"), None);
    assert_eq!(t.remove("granite"), None);
    match t.search("stone") {
        Some((tag, _)) => assert_eq!(tag, NodeType::Key),
        None => panic!("untouched key lost"),
    }
    assert_eq!(t.remove("stone"), Some(4));
}

#[test]
fn key_with_no_value() {
    let mut t = Trie::new();
    assert_eq!(t.insert("nil", None), None);
    match t.search("nil") {
        Some((tag, _)) => assert_eq!(tag, NodeType::Key),
        None => panic!("key with empty value not stored"),
    }
    assert_eq!(t.remove("nil"), None);
    assert!(t.search("nil").is_none());
}

#[test]
fn multibyte_keys() {
    let mut t = Trie::new();
    t.insert("näher", Some(10));
    t.insert("nähe", Some(11));
    assert_eq!(t.remove("näher"), Some(10));
    assert_eq!(t.longest_prefix("näherin").as_deref(), Some("nähe"));
    let keys = t.all_keys("n").expect("prefix exists");
    assert_eq!(keys, vec!["nähe".to_string()]);
}
