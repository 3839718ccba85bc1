use fuzzdex::utils::{distance, tokenize, trigramize};

#[test]
fn it_tokenizes() {
    let tokens: Vec<String> = tokenize("This are b some-Words.", 2);
    println!("Tokenized into {:?}", tokens);
    for token in ["this", "are", "some", "words"].iter() {
        println!("Testing {}", token);
        assert!(tokens.contains(&token.to_string()));
    }
    assert!(!tokens.contains(&"b".to_string()));
}

#[test]
fn it_trigramizes() {
    let testcases = [
        ("newyork", ["new", "ewy", "wyo", "yor", "ork"].to_vec()),
        ("k\u{43b}\u{430}\u{443}\u{441}", ["k\u{43b}\u{430}", "\u{43b}\u{430}\u{443}", "\u{430}\u{443}\u{441}"].to_vec()),
        ("newyor", ["new", "ewy", "wyo", "yor"].to_vec()),
        ("ewyor", ["ewy", "wyo", "yor"].to_vec()),
        ("\u{142}\u{f3}d\u{17a}", ["lod", "odz", "ldz", "loz"].to_vec()),
        ("y\u{306}es", ["yes"].to_vec()),
        ("12", ["12 "].to_vec()),
        ("1", ["1  "].to_vec()),
    ];
    for (input, proper_trigrams) in testcases.iter() {
        let trigrams: Vec<String> = trigramize(input);
        println!("Trigramized {} into {:?}", input, trigrams);
        for trigram in proper_trigrams.iter() {
            println!("Testing {}", trigram);
            assert!(trigrams.contains(&trigram.to_string()));
        }
    }
}

#[test]
fn short_tokens_get_padded_pseudo_trigrams() {
    assert_eq!(trigramize("1"), vec!["1  ".to_string()]);
    assert_eq!(trigramize("12"), vec!["12 ".to_string()]);
}

#[test]
fn trigrams_count_grapheme_clusters_not_characters() {
    // a pair of regional indicators is one grapheme cluster of two
    // characters, so the token is padded as a single-cluster token
    let flag = "\u{1f1f5}\u{1f1f1}";
    let expected = format!("{}  ", flag);
    assert_eq!(trigramize(flag), vec![expected]);
}

#[test]
fn tokens_of_length_four_and_five_get_two_augmentations() {
    // n sliding trigrams are n - 2; plus the two augmentations
    let four = trigramize("abcd");
    assert_eq!(four.len(), 2 + 2);
    assert_eq!(four, vec!["abc".to_string(), "bcd".to_string(), "abd".to_string(), "acd".to_string()]);
    let five = trigramize("abcde");
    assert_eq!(five.len(), 3 + 2);
    assert_eq!(
        five,
        vec![
            "abc".to_string(),
            "bcd".to_string(),
            "cde".to_string(),
            "abe".to_string(),
            "ade".to_string(),
        ]
    );
}

#[test]
fn repeated_pattern_yields_three_distinct_trigrams() {
    let long = "abc".repeat(1000);
    let trigrams = trigramize(&long);
    assert_eq!(trigrams.len(), 3 * 1000 - 2);
    let mut distinct: Vec<String> = Vec::new();
    for t in trigrams {
        if !distinct.contains(&t) {
            distinct.push(t);
        }
    }
    distinct.sort();
    assert_eq!(distinct, vec!["abc".to_string(), "bca".to_string(), "cab".to_string()]);
}

#[test]
fn distance_is_symmetric_and_zero_on_self() {
    let pairs = [("warszawa", "waszawa"), ("abc", "abcabc"), ("", "xyz"), ("kot", "kot")];
    for (a, b) in pairs.iter() {
        assert_eq!(distance(a, b), distance(b, a));
    }
    for s in ["", "a", "warszawa", "\u{142}\u{f3}d\u{17a}"].iter() {
        assert_eq!(distance(s, s), 0);
    }
    assert_eq!(distance("warszawa", "waszawa"), 1);
    assert_eq!(distance("abc", "abcabc"), 3);
    assert_eq!(distance("kitten", "sitting"), 3);
}

#[test]
fn distance_caps_input_at_five_hundred_graphemes() {
    let a = "x".repeat(600);
    let b = "x".repeat(500);
    assert_eq!(distance(&a, &b), 0);
}

#[test]
fn tokenize_round_trips_through_join() {
    for s in [
        "This is an entry",
        "Another entry entered.",
        "  spaced   out  ",
        "1 May",
        "phrase one, rather long",
        "",
    ]
    .iter()
    {
        let once = tokenize(s, 1);
        let joined = once.join(" ");
        let twice = tokenize(&joined, 1);
        assert_eq!(twice, once, "round trip differs for {:?}", s);
    }
}

#[test]
fn tokenize_trims_unseparated_whitespace() {
    // vertical tab is white space but not a separator, so it is trimmed
    let tokens = tokenize("\u{b}abc", 1);
    assert_eq!(tokens, vec!["abc".to_string()]);
}

#[test]
fn tokenize_keeps_order_and_duplicates() {
    let tokens = tokenize("b a b a", 1);
    assert_eq!(
        tokens,
        vec!["b".to_string(), "a".to_string(), "b".to_string(), "a".to_string()]
    );
}
