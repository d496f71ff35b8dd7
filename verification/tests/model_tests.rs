use unigram::lattice::Lattice;
use unigram::model::Unigram;

// Scores are fixed-point: 1000 units per log-probability point.

fn pieces_of(raw: &[(&str, i64)]) -> Vec<(String, i64)> {
    raw.iter().map(|(t, s)| (t.to_string(), *s)).collect()
}

#[test]
fn test_populate_nodes_unk() {
    let pieces = pieces_of(&[("<s>", 0), ("</s>", 0), ("<unk>", 0)]);
    let model = Unigram::from(&pieces, 0, 1, 2);

    let mut lattice = Lattice::from("abc", 0, 1, 2);
    model.populate_nodes(&mut lattice);

    assert_eq!(lattice.begin_nodes[0].len(), 1);
    assert_eq!(lattice.begin_nodes[1].len(), 1);
    assert_eq!(lattice.begin_nodes[2].len(), 1);
    assert_eq!(lattice.nodes[lattice.begin_nodes[0][0]].id, 2);
    assert_eq!(lattice.nodes[lattice.begin_nodes[1][0]].id, 2);
    assert_eq!(lattice.nodes[lattice.begin_nodes[2][0]].id, 2);
    assert_eq!(lattice.begin_nodes[0][0], 2);
    assert_eq!(lattice.begin_nodes[1][0], 3);
    assert_eq!(lattice.begin_nodes[2][0], 4);
}

#[test]
fn test_populate_nodes() {
    let pieces = pieces_of(&[
        ("<s>", 0),
        ("</s>", 0),
        ("<unk>", 0),
        ("a", 100),
        ("b", 200),
        ("ab", 300),
        ("bc", 400),
    ]);
    let model = Unigram::from(&pieces, 0, 1, 2);

    let mut lattice = Lattice::from("abc", 0, 1, 2);
    model.populate_nodes(&mut lattice);

    assert_eq!(lattice.begin_nodes[0].len(), 2); // a, ab
    assert_eq!(lattice.begin_nodes[1].len(), 2); // b, bc
    assert_eq!(lattice.begin_nodes[2].len(), 1); // c(unk)

    // id is the vocabulary id; the node id is the insertion rank.
    assert_eq!(lattice.nodes[lattice.begin_nodes[0][0]].id, 3);
    assert_eq!(lattice.nodes[lattice.begin_nodes[0][1]].id, 5);
    assert_eq!(lattice.nodes[lattice.begin_nodes[1][0]].id, 4);
    assert_eq!(lattice.nodes[lattice.begin_nodes[1][1]].id, 6);
    assert_eq!(lattice.nodes[lattice.begin_nodes[2][0]].id, 2);
    assert_eq!(lattice.begin_nodes[0][0], 2);
    assert_eq!(lattice.begin_nodes[0][1], 3);
    assert_eq!(lattice.begin_nodes[1][0], 4);
    assert_eq!(lattice.begin_nodes[1][1], 5);
    assert_eq!(lattice.begin_nodes[2][0], 6);
}

#[test]
fn test_encode() {
    let sentencepieces = pieces_of(&[
        ("<bos>", 0),
        ("<eos>", 0),
        ("<unk>", 0),
        ("a", 0),
        ("b", 0),
        ("c", 0),
        ("d", 0),
        ("cd", 1000),
        ("ab", 2000),
        ("abc", 5000),
        ("abcd", 10000),
    ]);

    let model = Unigram::from(&sentencepieces, 0, 1, 2);
    let result = model.encode("abcd", false);
    assert_eq!(result, vec!["abcd"]);
}

#[test]
fn test_encode2() {
    let sentencepieces = pieces_of(&[
        ("<bos>", 0),
        ("<eos>", 0),
        ("<unk>", 0),
        ("ab", 0),
        ("cd", -100),
        ("abc", -200),
        ("a", -300),
        ("b", -400),
        ("c", -500),
        ("ABC", -500),
        ("abcdabcd", 20000), // user-defined tokens just max the scores
        ("q", 20500),
        ("r", 20500),
        ("qr", -500),
    ]);

    let model = Unigram::from(&sentencepieces, 0, 1, 2);
    assert_eq!(model.encode("abc", false), vec!["abc"]);
    assert_eq!(model.encode("AB", false), vec!["A", "B"]);
    assert_eq!(model.encode("AB", true), vec!["AB"]);
    assert_eq!(model.encode("abcd", false), vec!["ab", "cd"]);
    assert_eq!(model.encode("abcc", false), vec!["abc", "c"]);
    assert_eq!(
        model.encode("xabcabaabcdd", false),
        vec!["x", "abc", "ab", "a", "ab", "cd", "d"]
    );
    assert_eq!(
        model.encode("xyz\u{6771}\u{4eac}", false),
        vec!["x", "y", "z", "\u{6771}", "\u{4eac}"]
    );

    assert_eq!(model.encode("ABC", false), vec!["ABC"]);
    assert_eq!(model.encode("abABCcd", false), vec!["ab", "ABC", "cd"]);
    assert_eq!(
        model.encode("ababcdabcdcd", false),
        vec!["ab", "abcdabcd", "cd"]
    );
    assert_eq!(model.encode("abqrcd", false), vec!["ab", "q", "r", "cd"]);
}

fn scenario_model() -> Unigram {
    let pieces = pieces_of(&[
        ("<bos>", 0),
        ("<eos>", 0),
        ("<unk>", 0),
        ("a", 0),
        ("b", 0),
        ("c", 0),
        ("d", 0),
        ("cd", 1000),
        ("ab", 2000),
        ("abc", 5000),
        ("abcd", 10000),
    ]);
    Unigram::from(&pieces, 0, 1, 2)
}

#[test]
fn test_encode_unfused_scenario() {
    let model = scenario_model();
    assert_eq!(
        model.encode("abcdacdxx", false),
        vec!["abcd", "a", "cd", "x", "x"]
    );
}

#[test]
fn test_encode_fused_scenario() {
    let model = scenario_model();
    assert_eq!(model.encode("abcdacdxx", true), vec!["abcd", "a", "cd", "xx"]);
}

#[test]
fn test_encode_empty_input() {
    let model = scenario_model();
    assert_eq!(model.encode("", false), Vec::<String>::new());
    assert_eq!(model.encode("", true), Vec::<String>::new());
}

#[test]
fn test_encode_concatenation_covers_input() {
    let model = scenario_model();
    for text in ["abcdacdxx", "zzz", "aXbXc", "abcd"] {
        let plain = model.encode(text, false);
        let fused = model.encode(text, true);
        assert_eq!(plain.concat(), text);
        assert_eq!(fused.concat(), text);
        assert!(fused.len() <= plain.len());
    }
}

#[test]
fn test_lookups() {
    let model = scenario_model();
    assert_eq!(model.token_to_id("abcd"), Some(10));
    assert_eq!(model.token_to_id("nope"), None);
    assert_eq!(model.id_to_token(7), Some("cd".to_string()));
    assert_eq!(model.id_to_token(999), None);
    assert_eq!(model.get_vocab_size(), 11);
    let vocab = model.get_vocab();
    assert_eq!(vocab.len(), 11);
    assert_eq!(vocab[8], ("ab".to_string(), 8));
}

#[test]
fn test_iter_order() {
    let model = scenario_model();
    let mut it = model.iter();
    let mut seen: Vec<(String, i64)> = Vec::new();
    while let Some(p) = it.next() {
        seen.push(p);
    }
    assert_eq!(seen.len(), 11);
    assert_eq!(seen[0], ("<bos>".to_string(), 0));
    assert_eq!(seen[10], ("abcd".to_string(), 10000));
}

#[test]
fn test_default_model() {
    let model = Unigram::default();
    assert_eq!(model.get_vocab_size(), 3);
    assert_eq!(model.token_to_id("<unk>"), Some(2));
    // every character is unknown to the default model
    assert_eq!(model.encode("ab", true), vec!["ab"]);
}

#[test]
fn test_tokenize_pipeline() {
    let model = scenario_model();
    let input = vec![
        ("abcd".to_string(), (0, 0)),
        ("x".to_string(), (0, 0)),
    ];
    let tokens = model.tokenize(input);
    assert_eq!(tokens.len(), 2);
    assert_eq!(tokens[0].id, 10);
    assert_eq!(tokens[0].value, "abcd");
    assert_eq!(tokens[0].word, 0);
    assert_eq!(tokens[0].offsets, (0, 0));
    // "x" is not in the vocabulary: the pipeline substitutes id 0
    assert_eq!(tokens[1].id, 0);
    assert_eq!(tokens[1].value, "x");
    assert_eq!(tokens[1].word, 0);
}

#[test]
fn test_tokenize_word_positions_restart() {
    let model = scenario_model();
    let input = vec![
        ("abcdacd".to_string(), (0, 0)),
        ("abcd".to_string(), (0, 0)),
    ];
    let tokens = model.tokenize(input);
    let summary: Vec<(u32, &str, u32)> = tokens
        .iter()
        .map(|t| (t.id, t.value.as_str(), t.word))
        .collect();
    assert_eq!(
        summary,
        vec![
            (10, "abcd", 0),
            (3, "a", 1),
            (7, "cd", 2),
            (10, "abcd", 0),
        ]
    );
}
