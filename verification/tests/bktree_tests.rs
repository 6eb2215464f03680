use zehnyasearch::bktree::{BKTree, SpellCorrector, Suggestion};

fn words(ws: &[&str]) -> Vec<String> {
    ws.iter().map(|w| w.to_string()).collect()
}

#[test]
fn test_bk_tree_exact() {
    let words: Vec<String> = vec!["hello", "help", "hell", "world", "word"]
        .into_iter()
        .map(String::from)
        .collect();

    let tree = BKTree::from_words(&words);
    let results = tree.find("hello", 0);
    assert_eq!(results.len(), 1);
    assert_eq!(results[0].0, "hello");
}

#[test]
fn test_bk_tree_fuzzy() {
    let words: Vec<String> = vec!["hello", "help", "hell", "world", "word"]
        .into_iter()
        .map(String::from)
        .collect();

    let tree = BKTree::from_words(&words);
    let results = tree.find("helo", 1);
    assert!(results.iter().any(|(w, _)| w == "hello"));
}

#[test]
fn test_bk_tree_suggest() {
    let words: Vec<String> = vec!["consensus", "concurrent", "connection", "constant"]
        .into_iter()
        .map(String::from)
        .collect();

    let tree = BKTree::from_words(&words);
    let suggestions = tree.suggest("concensus", 2, 3);
    assert!(!suggestions.is_empty());
    assert_eq!(suggestions[0].word, "consensus");
}

#[test]
fn bk_tree_size_counts_duplicates() {
    let tree = BKTree::from_words(&words(&["a", "b", "a"]));
    assert_eq!(tree.size(), 3);
    assert_eq!(tree.find("a", 0).len(), 1);
}

#[test]
fn bk_tree_find_sorted_with_distances() {
    let tree = BKTree::from_words(&words(&["hello", "help", "hell", "world", "word"]));
    let results = tree.find("hell", 1);
    let found: Vec<&str> = results.iter().map(|(w, _)| w.as_str()).collect();
    assert!(found.contains(&"hell"));
    assert!(found.contains(&"hello"));
    assert!(found.contains(&"help"));
    assert!(!found.contains(&"world"));
    assert_eq!(results[0], ("hell".to_string(), 0));
    for pair in results.windows(2) {
        assert!(pair[0].1 <= pair[1].1);
    }
}

#[test]
fn bk_tree_stored_words_always_found() {
    let ws = words(&["alpha", "alpine", "beta", "bet", "better", "alp"]);
    let tree = BKTree::from_words(&ws);
    for w in &ws {
        for m in 0..3 {
            let r = tree.find(w, m);
            assert!(r.iter().any(|(x, d)| x == w && *d == 0));
        }
    }
}

#[test]
fn bk_tree_empty_finds_nothing() {
    let tree = BKTree::new();
    assert!(tree.find("anything", 3).is_empty());
    assert_eq!(tree.size(), 0);
}

#[test]
fn bk_tree_suggest_limits_and_skips_exact() {
    let tree = BKTree::from_words(&words(&["cat", "car", "cart", "bat", "hat"]));
    let s = tree.suggest("cat", 1, 10);
    assert!(s.iter().all(|x| x.word != "cat" && x.distance == 1));
    assert_eq!(s.len(), 4);
    let one = tree.suggest("cat", 1, 1);
    assert_eq!(one.len(), 1);
    assert_eq!(one[0].distance, 1);
}

#[test]
fn suggestion_text() {
    let s = Suggestion { word: "consensus".to_string(), distance: 1 };
    assert_eq!(s.to_string(), "consensus (edit distance: 1)");
    let s = Suggestion { word: "x".to_string(), distance: 120 };
    assert_eq!(s.to_string(), "x (edit distance: 120)");
}

#[test]
fn spell_corrector_corrects_query() {
    let vocab: Vec<String> = ["consensus", "leader", "elect"].iter().map(|w| zehnyasearch::tokenizer::stem(w)).collect();
    let sc = SpellCorrector::new(&vocab);
    let c = sc.correct_query("concensus leader").expect("a correction");
    let expected = format!("{} leader", zehnyasearch::tokenizer::stem("consensus"));
    assert_eq!(c.original, "concensus leader");
    assert_eq!(c.corrected, expected);
    assert_eq!(c.to_string(), format!("Did you mean: \"{}\"?", expected));
}

#[test]
fn spell_corrector_none_when_all_known() {
    let vocab: Vec<String> = ["consensus", "leader"].iter().map(|w| zehnyasearch::tokenizer::stem(w)).collect();
    let sc = SpellCorrector::new(&vocab);
    assert!(sc.correct_query("Consensus leader").is_none());
    assert!(sc.correct_query("zzzzzzzz").is_none());
    assert!(sc.correct_query("").is_none());
}

#[test]
fn spell_corrector_keeps_one_byte_words_out() {
    let vocab: Vec<String> = vec!["consensu".to_string()];
    let sc = SpellCorrector::new(&vocab);
    let c = sc.correct_query("a concensus").expect("a correction");
    assert_eq!(c.corrected, "consensu");
}

#[test]
fn spell_corrector_suggest_term() {
    let vocab: Vec<String> = ["network", "networks", "notwork"].iter().map(|w| w.to_string()).collect();
    let sc = SpellCorrector::new(&vocab);
    let s = sc.suggest_term("Netwrk", 2);
    assert!(!s.is_empty());
    assert!(s.len() <= 5);
    assert_eq!(s[0].word, "network");
    assert_eq!(s[0].distance, 1);
}

#[test]
fn bk_tree_finds_words_past_a_transposition() {
    // "ca" -> "ac" is one transposition and "ac" -> "abc" one insertion, yet
    // "ca" -> "abc" takes three edits: the search must not cut "abc" off.
    let tree = BKTree::from_words(&words(&["ca", "abc"]));
    let mut r = tree.find("ac", 1);
    r.sort();
    assert_eq!(r, vec![("abc".to_string(), 1), ("ca".to_string(), 1)]);
}

#[test]
fn bk_tree_exact_search_finds_the_word_once() {
    let mut tree = BKTree::from_words(&words(&["alpha", "beta"]));
    tree.insert("alpha".to_string());
    assert_eq!(tree.find("alpha", 0), vec![("alpha".to_string(), 0)]);
    tree.insert("gamma".to_string());
    assert_eq!(tree.find("gamma", 0), vec![("gamma".to_string(), 0)]);
}
