use zehnyasearch::fuzzy::{damerau_levenshtein, edit_distance, fuzzy_expand, fuzzy_match_terms};
use zehnyasearch::index::{InvertedIndex, Posting};
use zehnyasearch::ranking::{has_consecutive_positions, phrase_docs, shares_token};
use zehnyasearch::store::{Document, DocumentStore};

#[test]
fn edit_distance_values() {
    assert_eq!(edit_distance("kitten", "sitting"), 3);
    assert_eq!(edit_distance("", "abc"), 3);
    assert_eq!(edit_distance("abc", "abc"), 0);
    assert_eq!(edit_distance("ca", "ac"), 2);
    assert_eq!(edit_distance("flaw", "lawn"), 2);
}

#[test]
fn damerau_counts_transpositions_once() {
    assert_eq!(damerau_levenshtein("ca", "ac"), 1);
    assert_eq!(damerau_levenshtein("abcdef", "abdcef"), 1);
    assert_eq!(damerau_levenshtein("", ""), 0);
    assert_eq!(damerau_levenshtein("kitten", "sitting"), 3);
    assert_eq!(damerau_levenshtein("ca", "abc"), 3);
    assert_eq!(damerau_levenshtein("hello", "world"), damerau_levenshtein("world", "hello"));
}

fn sample_index() -> InvertedIndex {
    let mut ix = InvertedIndex::new();
    ix.add_document(0, "tcp socket programming with sockets");
    ix.add_document(1, "udp socket datagram");
    ix.add_document(2, "leader election in raft");
    ix
}

#[test]
fn index_postings_and_lengths() {
    let ix = sample_index();
    assert_eq!(ix.doc_count(), 3);
    assert_eq!(ix.doc_length(0), Some(4));
    assert_eq!(ix.doc_length(7), None);
    assert_eq!(ix.total_length(), 4 + 3 + 3);
    let p = ix.get_postings("socket");
    assert_eq!(p.len(), 2);
    assert_eq!(p[0].doc_id, 0);
    assert_eq!(p[0].term_freq, 2);
    assert_eq!(p[0].positions, vec![1, 3]);
    assert_eq!(p[1].doc_id, 1);
    assert_eq!(p[1].positions, vec![1]);
    assert_eq!(ix.doc_frequency("socket"), 2);
    assert_eq!(ix.doc_frequency("nothing"), 0);
    assert!(ix.get_postings("nothing").is_empty());
    let mut ids = ix.doc_ids();
    ids.sort();
    assert_eq!(ids, vec![0, 1, 2]);
    let terms = ix.terms();
    assert_eq!(terms.len(), ix.term_count());
    assert!(terms.contains(&"raft".to_string()));
}

#[test]
fn index_from_parts_rejects_duplicate_terms() {
    let p = Posting { doc_id: 1, term_freq: 1, positions: vec![0] };
    let ok = InvertedIndex::from_parts(vec![("a".to_string(), vec![p.clone()]), ("b".to_string(), vec![p.clone()])], &[(1, 1)], 1, 1);
    let ix = ok.expect("distinct terms");
    assert_eq!(ix.doc_frequency("b"), 1);
    assert_eq!(ix.doc_length(1), Some(1));
    let bad = InvertedIndex::from_parts(vec![("a".to_string(), vec![p.clone()]), ("a".to_string(), vec![])], &[], 0, 0);
    assert!(bad.is_none());
}

#[test]
fn fuzzy_matches_sorted_without_exact() {
    let ix = sample_index();
    let m = fuzzy_match_terms(&ix, "sockets", 2);
    assert!(m.iter().all(|(t, d)| t != "socket" && *d > 0 && *d <= 2));
    let m = fuzzy_match_terms(&ix, "soket", 1);
    assert_eq!(m, vec![("socket".to_string(), 1)]);
    let m = fuzzy_match_terms(&ix, "rafts", 2);
    assert!(m.is_empty());
}

#[test]
fn phrase_matching() {
    assert!(has_consecutive_positions(&[vec![1, 5], vec![2, 9], vec![3]]));
    assert!(!has_consecutive_positions(&[vec![1, 5], vec![3, 9]]));
    assert!(!has_consecutive_positions(&[]));
    assert!(!has_consecutive_positions(&[vec![]]));
    assert!(has_consecutive_positions(&[vec![4]]));
    let ix = sample_index();
    assert_eq!(phrase_docs(&ix, &["tcp".to_string(), "socket".to_string()]), vec![0]);
    assert_eq!(phrase_docs(&ix, &["socket".to_string(), "tcp".to_string()]), Vec::<u32>::new());
    assert_eq!(phrase_docs(&ix, &["socket".to_string()]), vec![0, 1]);
    assert_eq!(phrase_docs(&ix, &[]), Vec::<u32>::new());
}

#[test]
fn store_add_get_count() {
    let mut st = DocumentStore::new();
    assert_eq!(st.count(), 0);
    let a = st.add("p0".to_string(), "t0".to_string(), "b0".to_string());
    let b = st.add("p1".to_string(), "t1".to_string(), "b1".to_string());
    assert_eq!((a, b), (0, 1));
    assert_eq!(st.count(), 2);
    let d = st.get(1).unwrap();
    assert_eq!((d.id, d.path.as_str(), d.title.as_str(), d.body.as_str()), (1, "p1", "t1", "b1"));
    assert!(st.get(2).is_none());
}

#[test]
fn store_snippets() {
    let mut st = DocumentStore::new();
    let id = st.add("p".to_string(), "t".to_string(), "one two Three four FIVE, six seven eight nine ten".to_string());
    assert_eq!(st.snippet(id, &["five".to_string()], 2), "...Three four FIVE, six seven...");
    assert_eq!(st.snippet(id, &["zzz".to_string()], 2), "one two Three...");
    assert_eq!(st.snippet(id, &["ten".to_string()], 3), "...seven eight nine ten");
    assert_eq!(st.snippet(id, &["seve".to_string()], 0), "...seven...");
    assert_eq!(st.snippet(99, &["one".to_string()], 2), "");
    let id2 = st.add("q".to_string(), "u".to_string(), "alpha -- beta".to_string());
    assert_eq!(st.snippet(id2, &["beta".to_string()], 0), "...beta");
    let id3 = st.add("r".to_string(), "v".to_string(), "hello -- world".to_string());
    assert_eq!(st.snippet(id3, &["world".to_string()], 0), "...world");
}

#[test]
fn store_from_documents() {
    let docs = vec![
        Document { id: 0, path: "a".to_string(), title: "A".to_string(), body: "x".to_string() },
        Document { id: 1, path: "b".to_string(), title: "B".to_string(), body: "y".to_string() },
    ];
    let st = DocumentStore::from_documents(docs).expect("ids in order");
    assert_eq!(st.count(), 2);
    assert_eq!(st.get(1).unwrap().path, "b");
    let bad = vec![Document { id: 5, path: "a".to_string(), title: "A".to_string(), body: "x".to_string() }];
    assert!(DocumentStore::from_documents(bad).is_none());
}

#[test]
fn fuzzy_expansion_terms_and_corrections() {
    let ix = sample_index();
    let (terms, fixes) = fuzzy_expand(&ix, "soket tcp", 1);
    assert_eq!(terms, vec!["soket".to_string(), "socket".to_string(), "tcp".to_string()]);
    assert_eq!(fixes, vec![("soket".to_string(), "socket".to_string(), 1)]);
    // A term present in the index reports only one-edit matches.
    let (terms, fixes) = fuzzy_expand(&ix, "udp", 2);
    assert_eq!(terms, vec!["udp".to_string(), "tcp".to_string()]);
    assert!(fixes.is_empty());
    // A match already listed is not listed again.
    let (terms, _) = fuzzy_expand(&ix, "soket socket", 1);
    assert_eq!(terms, vec!["soket".to_string(), "socket".to_string(), "socket".to_string()]);
    let (terms, fixes) = fuzzy_expand(&ix, "", 2);
    assert!(terms.is_empty() && fixes.is_empty());
}

#[test]
fn vocabulary_membership() {
    let ix = sample_index();
    assert!(ix.contains_term("raft"));
    assert!(ix.contains_term("socket"));
    assert!(!ix.contains_term("rafts"));
    assert!(!InvertedIndex::new().contains_term("raft"));
}

#[test]
fn query_and_text_share_tokens() {
    assert!(shares_token("Socket programs", "tcp sockets"));
    assert!(!shares_token("raft", "udp datagram"));
    assert!(!shares_token("", "anything"));
    assert!(shares_token("https://example.com/raft", "Raft"));
}

#[test]
fn fuzzy_matches_compare_characters_not_bytes() {
    let mut ix = InvertedIndex::new();
    ix.add_document(0, "éé");
    let m = fuzzy_match_terms(&ix, "e", 2);
    assert_eq!(m, vec![("éé".to_string(), 2)]);
}

#[test]
fn levenshtein_laws_on_examples() {
    let ws = ["", "a", "ab", "ba", "abc", "kitten", "sitting", "ca", "ac"];
    for a in ws {
        assert_eq!(edit_distance(a, a), 0);
        for b in ws {
            assert_eq!(edit_distance(a, b) == 0, a == b);
            for c in ws {
                assert!(edit_distance(a, c) <= edit_distance(a, b) + edit_distance(b, c));
            }
        }
    }
}
