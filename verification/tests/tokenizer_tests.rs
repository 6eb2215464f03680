use zehnyasearch::tokenizer::{stem, tokenize};

#[test]
fn test_basic_stemming() {
    assert_eq!(stem("running"), "run");
    assert_eq!(stem("cats"), "cat");
    assert_eq!(stem("connected"), "connect");
}

#[test]
fn test_tokenize_removes_stop_words() {
    let tokens = tokenize("the quick brown fox jumps over the lazy dog");
    assert!(!tokens.contains(&"the".to_string()));
    assert!(tokens.contains(&stem("quick")));
}

#[test]
fn stemming_examples() {
    assert_eq!(stem("caresses"), "caress");
    assert_eq!(stem("ponies"), "poni");
    assert_eq!(stem("agreed"), "agre");
    assert_eq!(stem("hopping"), "hop");
    assert_eq!(stem("filing"), "file");
    assert_eq!(stem("happy"), "happi");
    assert_eq!(stem("relational"), "relat");
    assert_eq!(stem("is"), "is");
}

#[test]
fn tokenize_lowercases_splits_and_drops_short() {
    let t = tokenize("Hello, WORLD! a b-c x1 The");
    assert_eq!(t, vec!["hello".to_string(), "world".to_string(), "x1".to_string()]);
    assert!(tokenize("").is_empty());
    assert!(tokenize("the and of").is_empty());
}

#[test]
fn stems_are_never_longer() {
    for w in ["at", "é", "éés", "héllying", "caresses", "ponies", "troubled", "hopping", "relational", "sensibiliti", "xs", "zzzing", "y"] {
        let s = stem(w);
        assert!(s.chars().count() <= w.chars().count(), "{} -> {}", w, s);
        assert!(s.len() <= w.len(), "{} -> {}", w, s);
        assert!(!s.is_empty());
        if w.len() <= 2 {
            assert_eq!(s, w);
        }
    }
    assert_eq!(stem("troubled"), "troubl");
    assert_eq!(stem(""), "");
}

#[test]
fn whitespace_is_unicode_white_space() {
    for u in 0u32..0x11_0000 {
        if let Some(c) = char::from_u32(u) {
            let s = c.to_string();
            let pieces = zehnyasearch::text::split_whitespace(&s);
            assert_eq!(pieces.is_empty(), c.is_whitespace(), "U+{:04X}", u);
        }
    }
}
