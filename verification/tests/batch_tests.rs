use csv_sql_loader::batch::{BatchConfig, BatchIterator, BatchProcessor, RetryDecision};
use csv_sql_loader::errors::LoaderError;

#[test]
fn test_batch_iterator() {
    let data: Vec<Result<Vec<String>, LoaderError>> = vec![
        Ok(vec!["1".to_string()]),
        Ok(vec!["2".to_string()]),
        Ok(vec!["3".to_string()]),
        Ok(vec!["4".to_string()]),
        Ok(vec!["5".to_string()]),
    ];

    let mut batches = BatchIterator::new(data, 2);

    let batch1 = batches.next().unwrap().unwrap();
    assert_eq!(batch1.len(), 2);

    let batch2 = batches.next().unwrap().unwrap();
    assert_eq!(batch2.len(), 2);

    let batch3 = batches.next().unwrap().unwrap();
    assert_eq!(batch3.len(), 1);

    assert!(batches.next().is_none());
}

#[test]
fn test_default_batch_config() {
    let config = BatchConfig::default();
    assert_eq!(config.batch_size, 10_000);
    assert_eq!(config.max_retries, 3);
}

#[test]
fn test_batches_partition_input() {
    // Five rows in batches of two: ceil(5/2) = 3 batches of sizes 2, 2, 1,
    // concatenating back to the input in order.
    let rows: Vec<Vec<String>> = (1..=5).map(|i| vec![i.to_string()]).collect();
    let data: Vec<Result<Vec<String>, LoaderError>> =
        rows.iter().cloned().map(Ok).collect();
    let mut batches = BatchIterator::new(data, 2);
    let mut collected: Vec<Vec<String>> = Vec::new();
    let mut sizes: Vec<usize> = Vec::new();
    while let Some(b) = batches.next() {
        let b = b.unwrap();
        sizes.push(b.len());
        collected.extend(b);
    }
    assert_eq!(sizes, vec![2, 2, 1]);
    assert_eq!(collected, rows);
}

#[test]
fn test_batch_iterator_error_stops_batch() {
    let data: Vec<Result<Vec<String>, LoaderError>> = vec![
        Ok(vec!["1".to_string()]),
        Ok(vec!["2".to_string()]),
        Err(LoaderError::CsvError("bad row".to_string())),
        Ok(vec!["4".to_string()]),
    ];
    let mut batches = BatchIterator::new(data, 3);
    // The failure surfaces instead of the partial batch.
    let first = batches.next().unwrap();
    assert!(matches!(first, Err(LoaderError::CsvError(_))));
    // Batch production stops: the rows after the failure are never yielded.
    assert!(batches.next().is_none());
    assert!(batches.next().is_none());
}

#[test]
fn test_retry_backoff_doubles_and_gives_up() {
    // Two retries allowed; a sink failing twice then succeeding waits
    // 1000 ms and then 2000 ms: exact doubling.
    let p = BatchProcessor::new(BatchConfig {
        batch_size: 100,
        max_retries: 2,
        initial_backoff_ms: 1000,
        max_backoff_ms: 60_000,
    });
    let s0 = p.initial_state();
    let d0 = p.on_failure(&s0);
    let s1 = match d0 {
        RetryDecision::Retry { delay_ms, next } => {
            assert_eq!(delay_ms, 1000);
            next
        }
        _ => panic!("first failure must retry"),
    };
    let d1 = p.on_failure(&s1);
    let s2 = match d1 {
        RetryDecision::Retry { delay_ms, next } => {
            assert_eq!(delay_ms, 2000);
            next
        }
        _ => panic!("second failure must retry"),
    };
    // A sink that always fails is given up on at the third failure, after
    // exactly three attempts, reporting two retries.
    let d2 = p.on_failure(&s2);
    assert_eq!(d2, RetryDecision::GiveUp { retries: 2 });
}

#[test]
fn test_retry_backoff_is_capped() {
    let p = BatchProcessor::new(BatchConfig {
        batch_size: 100,
        max_retries: 5,
        initial_backoff_ms: 40_000,
        max_backoff_ms: 60_000,
    });
    let s0 = p.initial_state();
    match p.on_failure(&s0) {
        RetryDecision::Retry { delay_ms, next } => {
            assert_eq!(delay_ms, 40_000);
            assert_eq!(next.backoff_ms, 60_000);
        }
        _ => panic!("must retry"),
    }
}

#[test]
fn test_batch_iterator_zero_size_yields_nothing() {
    let data: Vec<Result<Vec<String>, LoaderError>> = vec![Ok(vec!["1".to_string()])];
    let mut batches = BatchIterator::new(data, 0);
    assert!(batches.next().is_none());
}
