use unigram::model::Unigram;
use unigram::persist::LoadError;
use unigram::persist::replace_markers;
use unigram::persist::save_filename;
use unigram::persist::split_fields;
use unigram::trie::TrieBuilder;
use unigram::trie::empty_trie;

#[test]
fn test_common_prefix_search_order() {
    let mut builder = TrieBuilder::default();
    for tok in ["a", "abc", "ab", "b", "abcd"] {
        let chars: Vec<char> = tok.chars().collect();
        builder.push(&chars);
    }
    let trie = builder.build();
    let query: Vec<char> = "abcdz".chars().collect();
    let matches = trie.common_prefix_search(&query, 0);
    // every stored prefix, ordered strictly by increasing length
    let strings: Vec<String> = matches.iter().map(|m| m.iter().collect()).collect();
    assert_eq!(strings, vec!["a", "ab", "abc", "abcd"]);
    for w in strings.windows(2) {
        assert!(w[0].len() < w[1].len());
    }
    // and from a later offset
    let from_one = trie.common_prefix_search(&query, 1);
    assert_eq!(from_one.len(), 1);
    let b: String = from_one[0].iter().collect();
    assert_eq!(b, "b");
}

#[test]
fn test_empty_trie_matches_nothing() {
    let trie = empty_trie();
    let query: Vec<char> = "abc".chars().collect();
    assert_eq!(trie.common_prefix_search(&query, 0).len(), 0);
}

#[test]
fn test_record_round_trip() {
    let pieces: Vec<(String, i64)> = vec![
        ("<bos>".to_string(), 0),
        ("<eos>".to_string(), 0),
        ("<unk>".to_string(), 0),
        ("ab".to_string(), 2000),
        ("cd".to_string(), -100),
    ];
    let model = Unigram::from(&pieces, 0, 1, 2);
    let record = model.to_record();
    assert_eq!(record.vocab.len(), 5);
    assert_eq!(record.scores, vec![0, 0, 0, 2000, -100]);
    assert_eq!(record.min_score, -100);
    assert_eq!(record.token_to_ids[3], ("ab".to_string(), 3));
    let reloaded = Unigram::from_record(&record);
    assert_eq!(reloaded.vocab, model.vocab);
    assert_eq!(reloaded.scores, model.scores);
    assert_eq!(reloaded.min_score, model.min_score);
    assert_eq!(reloaded.bos_id, model.bos_id);
    assert_eq!(reloaded.eos_id, model.eos_id);
    assert_eq!(reloaded.unk_id, model.unk_id);
    for text in ["abcdx", "", "ababcd"] {
        assert_eq!(reloaded.encode(text, false), model.encode(text, false));
        assert_eq!(reloaded.encode(text, true), model.encode(text, true));
    }
}

#[test]
fn test_replace_markers() {
    let replaced = replace_markers("\u{2581}hello\u{2581}world");
    assert_eq!(replaced, " hello world");
    assert_eq!(replace_markers("plain"), "plain");
}

#[test]
fn test_split_fields() {
    let ok = split_fields("token\t-1.25");
    assert_eq!(ok, Some(("token".to_string(), "-1.25".to_string())));
    assert_eq!(split_fields("no-tab-here"), None);
    assert_eq!(split_fields("a\tb\tc"), None);
}

#[test]
fn test_load_error_message() {
    let err = LoadError::InvalidLine("line 3 is invalid".to_string());
    assert_eq!(err.message(), "line 3 is invalid");
    let cloned = err.clone();
    assert_eq!(cloned.message(), "line 3 is invalid");
}

#[test]
fn test_save_filename() {
    assert_eq!(save_filename(Some("mymodel")), "mymodel-unigram.json");
    assert_eq!(save_filename(None), "unigram.json");
}
