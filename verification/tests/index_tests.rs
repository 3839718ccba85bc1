use fuzzdex::indexer::Indexer;
use fuzzdex::query::Query;

#[test]
fn it_works() {
    let mut idx = Indexer::new();
    let constraints: Vec<usize> = vec![1];

    idx.add_phrase("This is an entry", 1, None).unwrap();
    idx.add_phrase("Another entry entered.", 2, Some(&constraints)).unwrap();
    idx.add_phrase("Another about the testing.", 3, None).unwrap();
    idx.add_phrase("Tester tested a test suite.", 4, None).unwrap();
    let mut idx = idx.finish();
    assert_eq!(idx.cache_stats().inserts, 0);

    /* First query */
    let query = Query::new("another", &["testing"]).limit(Some(60));
    println!("Querying {:?}", query);
    let results = idx.search(&query);

    assert_eq!(results.len(), 2);
    assert_eq!(results[0].index, 3);
    assert_eq!(results[1].index, 2);
    assert!(
        results[0].should_score > results[1].should_score,
        "First result should have higher score than second one"
    );

    assert_eq!(idx.cache_stats().hits, 0);
    assert_eq!(idx.cache_stats().misses, 1);
    assert_eq!(idx.cache_stats().inserts, 1);

    /* Test constraint */
    let query = Query::new("another", &["testing"]).constraint(Some(1));
    println!("Querying {:?}", query);
    let results = idx.search(&query);

    assert_eq!(results.len(), 1);
    assert_eq!(results[0].index, 2);

    /* Asked for the same token */
    assert_eq!(idx.cache_stats().hits, 1);
    assert_eq!(idx.cache_stats().misses, 1);
    assert_eq!(idx.cache_stats().inserts, 1);

    /* Third query */
    let query = Query::new("this", &["entry"]).limit(Some(60));
    let results = idx.search(&query);

    for result in &results {
        println!("Got result {:?}", result);
    }

    assert_eq!(results.len(), 1);
    assert_eq!(results[0].index, 1);
    assert!(results[0].should_score > 0, "First result should have non-zero should-score");

    /* Test multiple tokens matching in single phrase */
    let query = Query::new("test", &[]).limit(Some(60));
    println!("Querying {:?}", query);
    let results = idx.search(&query);

    for result in &results {
        println!("Got result {:?}", result);
    }

    assert_eq!(results.len(), 1);
    assert_eq!(results[0].index, 4);
}

#[test]
fn it_works_with_case_change_and_spellerror() {
    let mut idx = Indexer::new();

    idx.add_phrase("Warszawa", 1, None).unwrap();
    idx.add_phrase("Rakszawa", 2, None).unwrap();
    /* "asz" trigram will appear during a spelling error in wa(r)szawa */
    idx.add_phrase("Waszeta", 3, None).unwrap();
    idx.add_phrase("Waszki", 4, None).unwrap();
    idx.add_phrase("Kwaszyn", 5, None).unwrap();
    idx.add_phrase("Jakszawa", 6, None).unwrap();
    idx.add_phrase("Warszew", 7, None).unwrap();
    let mut idx = idx.finish();

    /* Query with lowercase and single spell error */
    let query = Query::new("waszawa", &[]).limit(Some(1));
    println!("Querying {:?}", query);
    let results = idx.search(&query);

    for result in &results {
        println!("Got result {:?}", result);
    }

    assert_eq!(results.len(), 1);
    assert_eq!(results[0].index, 1);
}

/// Street names often contain single digits that should correctly
/// be used in "should" statements.
#[test]
fn it_works_with_small_tokens() {
    let mut idx = Indexer::new();

    idx.add_phrase("1 May", 1, None).unwrap();
    idx.add_phrase("2 May", 2, None).unwrap();
    idx.add_phrase("3 May", 3, None).unwrap();
    idx.add_phrase("4 July", 4, None).unwrap();
    let mut idx = idx.finish();

    /* First query */
    let query = Query::new("may", &["1"]).limit(Some(1));
    println!("Querying {:?}", query);
    let results = idx.search(&query);
    for result in &results {
        println!("Got result {:?}", result);
    }
    assert_eq!(results.len(), 1);
    assert_eq!(results[0].index, 1);

    let query = Query::new("may", &["2"]).limit(Some(1));
    println!("Querying {:?}", query);
    let results = idx.search(&query);
    for result in &results {
        println!("Got result {:?}", result);
    }
    assert_eq!(results.len(), 1);
    assert_eq!(results[0].index, 2);

    let query = Query::new("may", &["3"]).limit(Some(1));
    println!("Querying {:?}", query);
    let results = idx.search(&query);
    for result in &results {
        println!("Got result {:?}", result);
    }
    assert_eq!(results.len(), 1);
    assert_eq!(results[0].index, 3);
}

#[test]
fn it_behaves_with_repeating_patterns() {
    let mut idx = Indexer::new();

    let repeating_phrase = "abcaBC";
    idx.add_phrase(&repeating_phrase, 1, None).unwrap();
    let mut idx = idx.finish();

    /* Should generate only three trigrams: abc, bca, cab */
    assert_eq!(3, idx.trigram_count());
    assert!(idx.has_trigram("abc"));
    assert!(idx.has_trigram("bca"));
    assert!(idx.has_trigram("cab"));

    let query = Query::new("abc", &[]).max_distance(Some(3)).limit(Some(3));
    let results = idx.search(&query);
    assert_eq!(results.len(), 1);
    assert_eq!(results[0].index, 1);
    assert_eq!(results[0].distance, 3);

    /* Similar but duplicates in separate tokens */
    let mut idx = Indexer::new();
    let repeating_phrase = "abcx uabc";
    idx.add_phrase(&repeating_phrase, 1, None).unwrap();
    let mut idx = idx.finish();

    let query = Query::new("abc", &[]).limit(Some(3));
    let results = idx.search(&query);
    assert_eq!(results.len(), 1);
    assert_eq!(results[0].index, 1);
    assert_eq!(results[0].distance, 1);
}

#[test]
fn it_behaves_with_too_long_inputs() {
    let mut idx = Indexer::new();

    /* Single token, multiple duplicated trigrams */
    let long_string = "abc".repeat(1000);
    idx.add_phrase(&long_string, 1, None).unwrap();
    let mut idx = idx.finish();

    /* Generates 3 different trigrams */
    assert_eq!(3, idx.trigram_count());
    assert!(idx.has_trigram("abc"));
    assert!(idx.has_trigram("bca"));
    assert!(idx.has_trigram("cab"));

    println!("Added {}", long_string);
    let query = Query::new(&long_string, &[]).limit(Some(3));
    let results = idx.search(&query);
    assert_eq!(results.len(), 1);
    assert_eq!(results[0].index, 1);

    /* A lot of small tokens */
    let mut idx = Indexer::new();
    let long_string = "abc ".repeat(70000);
    idx.add_phrase(&long_string, 1, None).unwrap();
    let mut idx = idx.finish();

    /* Generates only one trigram */
    assert_eq!(1, idx.trigram_count());
    assert!(idx.has_trigram("abc"));

    let query = Query::new("abc", &[]).limit(Some(3));
    let results = idx.search(&query);
    assert_eq!(results.len(), 1);
    assert_eq!(results[0].index, 1);
    assert_eq!(results[0].distance, 0);
}

#[test]
fn it_detects_duplicate_phrase_idx() {
    let mut idx = Indexer::new();

    assert!(idx.add_phrase("phrase one, rather long", 1, None).is_ok());
    assert!(idx.add_phrase("phrase two, duplicated id", 1, None).is_err());
    assert!(idx.add_phrase("phrase three", 1, None).is_err());
    let mut idx = idx.finish();

    let query = Query::new("rather", &[]).limit(Some(3));
    let results = idx.search(&query);
    assert_eq!(results.len(), 1);
    assert_eq!(results[0].index, 1);

    let query = Query::new("duplicated", &[]).limit(Some(3));
    let results = idx.search(&query);
    assert_eq!(results.len(), 0);
}

#[test]
fn results_respect_max_distance_and_are_unique_and_ordered() {
    let mut idx = Indexer::new();
    idx.add_phrase("Warszawa", 1, None).unwrap();
    idx.add_phrase("Rakszawa", 2, None).unwrap();
    idx.add_phrase("Waszeta", 3, None).unwrap();
    idx.add_phrase("Waszki", 4, None).unwrap();
    idx.add_phrase("Kwaszyn", 5, None).unwrap();
    idx.add_phrase("Jakszawa", 6, None).unwrap();
    idx.add_phrase("Warszew", 7, None).unwrap();
    let mut idx = idx.finish();

    let query = Query::new("waszawa", &[]).limit(Some(60)).max_distance(Some(2));
    let results = idx.search(&query);
    assert!(results.len() >= 2);
    for r in &results {
        assert!(r.distance <= 2);
    }
    for i in 0..results.len() {
        for j in (i + 1)..results.len() {
            assert_ne!(results[i].index, results[j].index, "one result per phrase");
        }
    }
    for w in results.windows(2) {
        let a = &w[0];
        let b = &w[1];
        let key_a = (a.distance, u64::MAX - a.score, u64::MAX - a.should_score, a.origin.len());
        let key_b = (b.distance, u64::MAX - b.score, u64::MAX - b.should_score, b.origin.len());
        assert!(key_a <= key_b || (key_a == key_b && a.origin <= b.origin));
    }
}

#[test]
fn repeated_searches_return_equal_results_and_hit_the_cache() {
    let mut idx = Indexer::new();
    idx.add_phrase("This is an entry", 1, None).unwrap();
    idx.add_phrase("Another entry entered.", 2, None).unwrap();
    idx.add_phrase("Another about the testing.", 3, None).unwrap();
    let mut idx = idx.finish();

    let query = Query::new("another", &[]).limit(Some(60));
    let first = idx.search(&query);
    let stats = idx.cache_stats();
    assert_eq!(stats.inserts, 1);
    assert_eq!(stats.misses, 1);
    assert_eq!(stats.hits, 0);
    assert_eq!(stats.size, 1);

    let second = idx.search(&query);
    let stats = idx.cache_stats();
    assert_eq!(stats.hits, 1);
    assert_eq!(first.len(), second.len());
    for (a, b) in first.iter().zip(second.iter()) {
        assert_eq!(a.index, b.index);
        assert_eq!(a.origin, b.origin);
        assert_eq!(a.token, b.token);
        assert_eq!(a.distance, b.distance);
        assert_eq!(a.score, b.score);
        assert_eq!(a.should_score, b.should_score);
    }
}

#[test]
fn scores_of_results_stay_within_the_unit_range() {
    let mut idx = Indexer::new();
    idx.add_phrase("Warszawa", 1, None).unwrap();
    idx.add_phrase("Rakszawa", 2, None).unwrap();
    idx.add_phrase("Waszeta", 3, None).unwrap();
    let mut idx = idx.finish();

    let query = Query::new("waszawa", &[]).limit(Some(10));
    let results = idx.search(&query);
    assert!(results.len() >= 1);
    for r in &results {
        // a token accumulates several trigram scores, each strictly inside
        // (0, SCORE_ONE); a match here needs at least one of them
        assert!(r.score > 0);
        assert!(r.score < 20 * fuzzdex::indexer::SCORE_ONE as u64);
    }
}

#[test]
fn empty_index_returns_no_results() {
    let idx = Indexer::new();
    let mut idx = idx.finish();
    let query = Query::new("anything", &[]).limit(Some(5));
    let results = idx.search(&query);
    assert_eq!(results.len(), 0);
    let query = Query::new("", &[]);
    let results = idx.search(&query);
    assert_eq!(results.len(), 0);
}
