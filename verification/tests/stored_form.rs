use autocomplete_trie::trie::{Trie, TrieNode};
use serde_json::Value;

fn node_to_value(node: &TrieNode) -> Value {
    let mut children = serde_json::Map::new();
    for i in 0..node.edge_count() {
        let (key, child) = node.edge(i);
        children.insert(key.to_string(), node_to_value(child));
    }
    let mut object = serde_json::Map::new();
    object.insert("children".to_string(), Value::Object(children));
    object.insert("is_end_of_word".to_string(), Value::Bool(node.is_end_of_word()));
    Value::Object(object)
}

fn value_to_node(value: &Value) -> TrieNode {
    let object = value.as_object().expect("a node is an object");
    let flag = object["is_end_of_word"].as_bool().expect("the mark is a boolean");
    let mut children = Vec::new();
    for (key, child) in object["children"].as_object().expect("the edges are an object") {
        let mut chars = key.chars();
        let c = chars.next().expect("a key is one character");
        assert!(chars.next().is_none());
        children.push((c, value_to_node(child)));
    }
    TrieNode::from_parts(children, flag).expect("the keys of an object differ")
}

fn queries(alphabet: &[char], longest: usize) -> Vec<String> {
    let mut all = vec![String::new()];
    let mut last = vec![String::new()];
    for _ in 0..longest {
        let mut next = Vec::new();
        for q in &last {
            for c in alphabet {
                let mut longer = q.clone();
                longer.push(*c);
                next.push(longer);
            }
        }
        all.extend(next.iter().cloned());
        last = next;
    }
    all
}

#[test]
fn stored_and_loaded_tree_answers_alike() {
    let mut trie = Trie::new();
    for w in ["car", "cart", "care", "arc", "a", "tea", "tee"] {
        trie.insert(w);
    }
    let mut root = serde_json::Map::new();
    root.insert("root".to_string(), node_to_value(trie.root_node()));
    let text = serde_json::to_string(&Value::Object(root)).expect("a value can be written");
    let loaded: Value = serde_json::from_str(&text).expect("what was written can be read");
    let back = Trie::from_root(value_to_node(&loaded["root"]));
    for q in queries(&['a', 'c', 'e', 'r', 't'], 4) {
        assert_eq!(trie.search(&q), back.search(&q), "{q}");
        let before = trie.search_partial(&q);
        let after = back.search_partial(&q);
        assert_eq!(before.is_some(), after.is_some(), "{q}");
        if let (Some(b), Some(a)) = (before, after) {
            assert_eq!(b.is_end_of_word(), a.is_end_of_word(), "{q}");
            assert_eq!(b.edge_count(), a.edge_count(), "{q}");
            let mut listed_before = b.words();
            let mut listed_after = a.words();
            listed_before.sort();
            listed_after.sort();
            assert_eq!(listed_before, listed_after, "{q}");
        }
    }
}

#[test]
fn stored_form_of_a_small_tree() {
    let mut trie = Trie::new();
    trie.insert("a");
    let mut root = serde_json::Map::new();
    root.insert("root".to_string(), node_to_value(trie.root_node()));
    let text = serde_json::to_string(&Value::Object(root)).expect("a value can be written");
    assert_eq!(
        text,
        "{\"root\":{\"children\":{\"a\":{\"children\":{},\"is_end_of_word\":true}},\"is_end_of_word\":false}}"
    );
}

#[test]
fn edges_in_another_order_make_the_same_tree() {
    let ab = TrieNode::from_parts(
        vec![
            ('a', TrieNode::from_parts(vec![], true).expect("no edges")),
            ('b', TrieNode::from_parts(vec![], false).expect("no edges")),
        ],
        false,
    )
    .expect("distinct characters");
    let ba = TrieNode::from_parts(
        vec![
            ('b', TrieNode::from_parts(vec![], false).expect("no edges")),
            ('a', TrieNode::from_parts(vec![], true).expect("no edges")),
        ],
        false,
    )
    .expect("distinct characters");
    let first = Trie::from_root(ab);
    let second = Trie::from_root(ba);
    for q in queries(&['a', 'b'], 2) {
        assert_eq!(first.search(&q), second.search(&q), "{q}");
        assert_eq!(first.search_partial(&q).is_some(), second.search_partial(&q).is_some(), "{q}");
    }
}
