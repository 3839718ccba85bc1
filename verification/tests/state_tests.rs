use fuzzdex::{FuzzDex, FuzzDexError};
use fuzzdex::query::Query;

#[test]
fn lifecycle_enforces_states() {
    let mut fx = FuzzDex::new();

    // searching and cache stats are refused while building
    let query = Query::new("anything", &[]);
    assert!(matches!(fx.search(&query), Err(FuzzDexError::WrongState)));
    assert!(fx.cache_stats().is_err());

    assert!(fx.add_phrase("This is an entry", 1, None).is_ok());
    assert!(matches!(
        fx.add_phrase("Another entry", 1, None),
        Err(FuzzDexError::DuplicateId)
    ));

    // a zero cache capacity is refused and changes nothing
    assert!(matches!(fx.finish(Some(0)), Err(FuzzDexError::WrongState)));
    assert!(fx.add_phrase("Another entry", 2, None).is_ok());

    assert!(fx.finish(None).is_ok());

    // once frozen, adding and re-freezing are refused
    assert!(matches!(
        fx.add_phrase("Late entry", 3, None),
        Err(FuzzDexError::WrongState)
    ));
    assert!(matches!(fx.finish(Some(100)), Err(FuzzDexError::WrongState)));

    let query = Query::new("entry", &[]).limit(Some(10));
    let results = fx.search(&query).unwrap();
    assert_eq!(results.len(), 2);
    let stats = fx.cache_stats().unwrap();
    assert_eq!(stats.misses, 1);
    assert_eq!(stats.inserts, 1);
    assert_eq!(stats.hits, 0);
}

#[test]
fn constraints_filter_results_through_the_wrapper() {
    let mut fx = FuzzDex::new();
    let cons: Vec<usize> = vec![7];
    fx.add_phrase("Main street", 1, Some(&cons)).unwrap();
    fx.add_phrase("Main square", 2, None).unwrap();
    fx.finish(Some(50)).unwrap();

    let query = Query::new("main", &[]).limit(Some(10)).constraint(Some(7));
    let results = fx.search(&query).unwrap();
    assert_eq!(results.len(), 1);
    assert_eq!(results[0].index, 1);

    let query = Query::new("main", &[]).limit(Some(10));
    let results = fx.search(&query).unwrap();
    assert_eq!(results.len(), 2);
}

#[test]
fn multi_word_must_moves_extra_tokens_to_should() {
    let query = Query::new("grand central", &["station"]);
    assert_eq!(query.must, "central".to_string());
    assert_eq!(
        query.should,
        vec!["station".to_string(), "grand".to_string()]
    );
    assert_eq!(query.max_distance, Some(2));
    assert_eq!(query.limit, None);
    assert_eq!(query.constraint, None);
    assert_eq!(query.scan_cutoff, 300);
}
