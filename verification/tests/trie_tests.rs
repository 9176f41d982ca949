use autocomplete_trie::trie::{Trie, TrieNode};

fn trie_of(words: &[&str]) -> Trie {
    let mut trie = Trie::new();
    for w in words {
        trie.insert(w);
    }
    trie
}

#[test]
fn empty_trie_has_no_word_and_no_path() {
    let trie = Trie::new();
    assert!(!trie.search(""));
    assert!(!trie.search("a"));
    assert!(trie.search_partial("xyz").is_none());
    assert!(trie.search_partial("").is_some());
    assert_eq!(trie.dfs(), Vec::<char>::new());
}

#[test]
fn empty_word_marks_the_root() {
    let mut trie = Trie::new();
    trie.insert("");
    assert!(trie.search(""));
    assert!(trie.root_node().is_end_of_word());
    assert_eq!(trie.root_node().edge_count(), 0);
}

#[test]
fn car_cart_care() {
    let trie = trie_of(&["car", "cart", "care"]);
    assert!(trie.search("car"));
    assert!(!trie.search("ca"));
    assert!(!trie.search("dog"));
    assert!(trie.search_partial("do").is_none());
    let node = trie.search_partial("ca").expect("the path exists");
    assert!(!node.is_end_of_word());
    assert_eq!(node.edge_count(), 1);
    let (key, r) = node.edge(0);
    assert_eq!(key, 'r');
    assert!(r.is_end_of_word());
    assert_eq!(r.edge_count(), 2);
    assert_eq!(r.edge(0).0, 't');
    assert_eq!(r.edge(1).0, 'e');
    assert!(r.edge(0).1.is_end_of_word());
    assert!(r.edge(1).1.is_end_of_word());
    assert_eq!(trie.dfs_helper(node), vec!['r', 't', 'e']);
    assert_eq!(trie.dfs(), vec!['c', 'a', 'r', 't', 'e']);
}

#[test]
fn search_finds_exactly_the_stored_words() {
    let stored = ["tree", "trie", "algo", "assoc", "all", "also", "a"];
    let trie = trie_of(&stored);
    for w in stored {
        assert!(trie.search(w), "{w}");
    }
    for w in ["", "t", "tr", "tre", "trees", "al", "alg", "ass", "b", "allo", "alsoo"] {
        assert!(!trie.search(w), "{w}");
    }
    for p in ["", "t", "tr", "tre", "tri", "al", "alg", "ass", "asso", "a", "all"] {
        assert!(trie.search_partial(p).is_some(), "{p}");
    }
    for p in ["b", "trees", "ta", "allo", "x"] {
        assert!(trie.search_partial(p).is_none(), "{p}");
    }
}

#[test]
fn a_word_and_a_longer_word_share_a_node() {
    let trie = trie_of(&["carpet", "car"]);
    let node = trie.search_partial("car").expect("the path exists");
    assert!(node.is_end_of_word());
    assert_eq!(node.edge_count(), 1);
    assert_eq!(trie.dfs_helper(node), vec!['p', 'e', 't']);
    assert!(trie.search("carpet"));
    assert!(!trie.search("carp"));
}

#[test]
fn inserting_twice_changes_nothing() {
    let once = trie_of(&["car", "cart", "dog"]);
    let mut twice = trie_of(&["car", "cart", "dog"]);
    twice.insert("cart");
    twice.insert("car");
    assert_eq!(once.dfs(), twice.dfs());
    assert_eq!(once.dfs(), vec!['c', 'a', 'r', 't', 'd', 'o', 'g']);
    for q in ["", "c", "ca", "car", "cart", "d", "do", "dog", "carts"] {
        assert_eq!(once.search(q), twice.search(q), "{q}");
        assert_eq!(
            once.search_partial(q).map(|n| (n.is_end_of_word(), n.edge_count())),
            twice.search_partial(q).map(|n| (n.is_end_of_word(), n.edge_count())),
            "{q}"
        );
    }
}

#[test]
fn insert_adds_only_the_missing_nodes() {
    let mut trie = trie_of(&["cat"]);
    assert_eq!(trie.dfs().len(), 3);
    trie.insert("cab");
    assert_eq!(trie.dfs(), vec!['c', 'a', 't', 'b']);
    trie.insert("ca");
    assert_eq!(trie.dfs(), vec!['c', 'a', 't', 'b']);
    assert!(trie.search("ca"));
    assert!(trie.search("cat"));
    assert!(trie.search("cab"));
    assert!(!trie.search("c"));
}

#[test]
fn characters_are_code_points() {
    let trie = trie_of(&["żółw", "żółć", "日本"]);
    assert!(trie.search("żółw"));
    assert!(trie.search("żółć"));
    assert!(trie.search("日本"));
    assert!(!trie.search("żół"));
    assert!(!trie.search("日"));
    let node = trie.search_partial("żół").expect("the path exists");
    assert_eq!(trie.dfs_helper(node), vec!['w', 'ć']);
    assert_eq!(trie.dfs(), vec!['ż', 'ó', 'ł', 'w', 'ć', '日', '本']);
}

#[test]
fn new_node_is_bare() {
    let node = TrieNode::new();
    assert!(!node.is_end_of_word());
    assert_eq!(node.edge_count(), 0);
}

#[test]
fn from_parts_builds_the_node() {
    let leaf = TrieNode::from_parts(vec![], true).expect("no edges");
    let other = TrieNode::new();
    let node = TrieNode::from_parts(vec![('a', leaf), ('b', other)], false).expect("distinct characters");
    assert_eq!(node.edge_count(), 2);
    assert_eq!(node.edge(0).0, 'a');
    assert_eq!(node.edge(1).0, 'b');
    assert!(node.edge(0).1.is_end_of_word());
    assert!(!node.edge(1).1.is_end_of_word());
    let trie = Trie::from_root(node);
    assert!(trie.search("a"));
    assert!(!trie.search("b"));
    assert!(trie.search_partial("b").is_some());
    assert!(!trie.search(""));
}

#[test]
fn from_parts_refuses_a_character_twice() {
    let made = TrieNode::from_parts(
        vec![('a', TrieNode::new()), ('b', TrieNode::new()), ('a', TrieNode::new())],
        true,
    );
    assert!(made.is_none());
    let made = TrieNode::from_parts(vec![], true).expect("no edges");
    assert!(made.is_end_of_word());
}

fn strings(words: Vec<Vec<char>>) -> Vec<String> {
    words.into_iter().map(|w| w.into_iter().collect()).collect()
}

#[test]
fn words_lists_the_stored_words() {
    let trie = trie_of(&["car", "cart", "care", "dog", ""]);
    assert_eq!(strings(trie.root_node().words()), vec!["", "car", "cart", "care", "dog"]);
    assert_eq!(strings(Trie::new().root_node().words()), Vec::<String>::new());
}

#[test]
fn words_below_a_prefix_are_the_completions() {
    let trie = trie_of(&["car", "cart", "care", "cow", "dog", "carpet"]);
    let node = trie.search_partial("car").expect("the path exists");
    assert_eq!(strings(node.words()), vec!["", "t", "e", "pet"]);
    let node = trie.search_partial("c").expect("the path exists");
    assert_eq!(strings(node.words()), vec!["ar", "art", "are", "arpet", "ow"]);
    let node = trie.search_partial("carp").expect("the path exists");
    assert_eq!(strings(node.words()), vec!["et"]);
    let node = trie.search_partial("dog").expect("the path exists");
    assert_eq!(strings(node.words()), vec![""]);
}

#[test]
fn dfs_lists_the_last_character_of_every_path() {
    let trie = trie_of(&["ab", "ac", "b"]);
    let keys = trie.dfs();
    assert_eq!(keys, vec!['a', 'b', 'c', 'b']);
    let mut paths = 0;
    for p in ["a", "ab", "ac", "b"] {
        let node = trie.search_partial(p);
        assert!(node.is_some());
        assert!(keys.contains(&p.chars().last().unwrap()));
        paths += 1;
    }
    assert_eq!(keys.len(), paths);
}
