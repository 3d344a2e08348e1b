use pipeline_bench::metric::{ErrorKind, Observation, PerDocumentMetric};
use pipeline_bench::runner::{
    BenchmarkRun, Outcome, Step, BASELINE_REPETITIONS, COMPARATIVE_REPETITIONS,
};

fn seen(size_bytes: u64, elapsed_picos: u64) -> Outcome {
    Outcome::Measured(Observation { size_bytes, elapsed_picos })
}

/// Drives a trial as the harness does: one outcome for each step asked for.
fn drive(corpus_len: usize, repetitions: u32, outcomes: &[Outcome]) -> (BenchmarkRun, Vec<usize>) {
    let mut run = BenchmarkRun::start(corpus_len, repetitions).unwrap();
    let mut asked = Vec::new();
    let mut next = 0;
    while let Step::Execute { document } = run.next_step() {
        if next == outcomes.len() {
            break;
        }
        asked.push(document);
        let (moved, _) = run.advance(outcomes[next]);
        run = moved;
        next += 1;
    }
    (run, asked)
}

#[test]
fn the_protocol_constants_are_three_and_five() {
    assert_eq!(COMPARATIVE_REPETITIONS, 3);
    assert_eq!(BASELINE_REPETITIONS, 5);
}

#[test]
fn a_trial_has_one_entry_per_document() {
    for corpus_len in 0..6usize {
        let mut outcomes = Vec::new();
        for document in 0..corpus_len {
            for _ in 0..3 {
                outcomes.push(seen(100 + document as u64, 30 * (document as u64 + 1)));
            }
        }
        let (run, asked) = drive(corpus_len, 3, &outcomes);
        assert_eq!(asked.len(), corpus_len * 3);
        assert_eq!(run.next_step(), Step::Complete);
        let metrics = run.finish().unwrap();
        assert_eq!(metrics.len(), corpus_len);
        for (document, metric) in metrics.iter().enumerate() {
            assert_eq!(metric.size_bytes, 100 + document as u64);
            assert_eq!(metric.latency_picos, 30 * (document as u64 + 1));
        }
    }
}

#[test]
fn documents_are_run_in_corpus_order_each_in_a_row() {
    let outcomes = vec![seen(1, 1); 6];
    let (_, asked) = drive(3, 2, &outcomes);
    assert_eq!(asked, vec![0, 0, 1, 1, 2, 2]);
}

#[test]
fn latency_is_the_mean_of_the_runs() {
    let outcomes = vec![seen(9, 10), seen(9, 20), seen(9, 60), seen(4, 1), seen(4, 1), seen(4, 2)];
    let (run, _) = drive(2, 3, &outcomes);
    let metrics = run.finish().unwrap();
    assert_eq!(
        metrics,
        vec![
            PerDocumentMetric { size_bytes: 9, latency_picos: 30 },
            // 4 / 3, rounded down
            PerDocumentMetric { size_bytes: 4, latency_picos: 1 },
        ]
    );
}

#[test]
fn five_runs_are_averaged_like_three() {
    let outcomes = vec![seen(7, 10), seen(7, 20), seen(7, 30), seen(7, 40), seen(7, 51)];
    let (run, _) = drive(1, BASELINE_REPETITIONS, &outcomes);
    let metrics = run.finish().unwrap();
    assert_eq!(metrics, vec![PerDocumentMetric { size_bytes: 7, latency_picos: 30 }]);
}

#[test]
fn the_longest_runs_are_averaged_without_overflow() {
    let outcomes = vec![seen(1, u64::MAX), seen(1, u64::MAX), seen(1, u64::MAX - 3)];
    let (run, _) = drive(1, 3, &outcomes);
    let metrics = run.finish().unwrap();
    assert_eq!(metrics[0].latency_picos, u64::MAX - 1);
}

#[test]
fn size_is_taken_from_the_final_run() {
    let outcomes = vec![seen(11, 5), seen(12, 5), seen(13, 5)];
    let (run, _) = drive(1, 3, &outcomes);
    assert!(!run.sizes_stable());
    let metrics = run.finish().unwrap();
    assert_eq!(metrics[0].size_bytes, 13);
}

#[test]
fn size_does_not_depend_on_the_number_of_runs() {
    // The same sizes under three runs and under five, with other timings.
    let sizes = [700u64, 45, 9_000];
    let mut three = Vec::new();
    let mut five = Vec::new();
    for (document, size) in sizes.iter().enumerate() {
        for repetition in 0..3u64 {
            three.push(seen(*size, 1_000 + repetition * 17 + document as u64));
        }
        for repetition in 0..5u64 {
            five.push(seen(*size, 2_000 - repetition * 31));
        }
    }
    let (first, _) = drive(3, 3, &three);
    let (second, _) = drive(3, 5, &five);
    assert!(first.sizes_stable());
    assert!(second.sizes_stable());
    let first = first.finish().unwrap();
    let second = second.finish().unwrap();
    for document in 0..3 {
        assert_eq!(first[document].size_bytes, sizes[document]);
        assert_eq!(second[document].size_bytes, sizes[document]);
    }
    assert_ne!(first[0].latency_picos, second[0].latency_picos);
}

#[test]
fn sizes_that_differ_between_documents_are_stable() {
    let outcomes = vec![seen(1, 5), seen(1, 6), seen(2, 5), seen(2, 6)];
    let (run, _) = drive(2, 2, &outcomes);
    assert!(run.sizes_stable());
}

#[test]
fn a_size_that_changes_within_a_document_is_noticed_at_once() {
    let run = BenchmarkRun::start(2, 3).unwrap();
    assert!(run.sizes_stable());
    let (run, _) = run.advance(seen(5, 1));
    assert!(run.sizes_stable());
    let (run, _) = run.advance(seen(6, 1));
    assert!(!run.sizes_stable());
    let (run, _) = run.advance(seen(6, 1));
    let (run, _) = run.advance(seen(8, 1));
    assert!(!run.sizes_stable());
}

#[test]
fn no_trial_without_a_run_per_document() {
    assert!(BenchmarkRun::start(11, 0).is_none());
    assert!(BenchmarkRun::start(0, 0).is_none());
    assert!(BenchmarkRun::start(11, 1).is_some());
}

#[test]
fn an_empty_corpus_is_complete_at_once() {
    let run = BenchmarkRun::start(0, 3).unwrap();
    assert_eq!(run.next_step(), Step::Complete);
    let (run, step) = run.advance(seen(1, 1));
    assert_eq!(step, Step::Complete);
    assert_eq!(run.finish(), Some(vec![]));
}

#[test]
fn advance_says_what_comes_next() {
    let run = BenchmarkRun::start(2, 2).unwrap();
    assert_eq!(run.next_step(), Step::Execute { document: 0 });
    let (run, step) = run.advance(seen(1, 1));
    assert_eq!(step, Step::Execute { document: 0 });
    let (run, step) = run.advance(seen(1, 1));
    assert_eq!(step, Step::Execute { document: 1 });
    let (run, step) = run.advance(seen(1, 1));
    assert_eq!(step, Step::Execute { document: 1 });
    let (run, step) = run.advance(seen(1, 1));
    assert_eq!(step, Step::Complete);
    assert_eq!(run.next_step(), Step::Complete);
}

#[test]
fn an_unfinished_trial_has_no_result() {
    let run = BenchmarkRun::start(2, 2).unwrap();
    assert_eq!(run.finish(), None);
    let (run, _) = drive(2, 2, &[seen(1, 1), seen(1, 1), seen(1, 1)]);
    assert_eq!(run.next_step(), Step::Execute { document: 1 });
    assert_eq!(run.finish(), None);
}

#[test]
fn a_failure_ends_the_trial() {
    let run = BenchmarkRun::start(3, 3).unwrap();
    let (run, _) = run.advance(seen(5, 5));
    let (run, step) = run.advance(Outcome::Failed(ErrorKind::CompressionError));
    assert_eq!(step, Step::Abort { kind: ErrorKind::CompressionError });
    assert_eq!(run.next_step(), Step::Abort { kind: ErrorKind::CompressionError });
    assert_eq!(run.finish(), None);
}

#[test]
fn a_failure_is_not_retried() {
    let run = BenchmarkRun::start(1, 1).unwrap();
    let (run, _) = run.advance(Outcome::Failed(ErrorKind::SerializationError));
    let (run, step) = run.advance(seen(5, 5));
    assert_eq!(step, Step::Abort { kind: ErrorKind::SerializationError });
    let (run, step) = run.advance(Outcome::Failed(ErrorKind::IoError));
    assert_eq!(step, Step::Abort { kind: ErrorKind::SerializationError });
    assert_eq!(run.finish(), None);
}

#[test]
fn outcomes_after_completion_change_nothing() {
    let (run, _) = drive(1, 2, &[seen(3, 10), seen(3, 20)]);
    let (run, step) = run.advance(seen(99, 1_000));
    assert_eq!(step, Step::Complete);
    let (run, step) = run.advance(Outcome::Failed(ErrorKind::DecodeError));
    assert_eq!(step, Step::Complete);
    assert_eq!(run.finish(), Some(vec![PerDocumentMetric { size_bytes: 3, latency_picos: 15 }]));
}

#[test]
fn every_failure_has_its_name() {
    assert_eq!(ErrorKind::IoError.name(), "IoError");
    assert_eq!(ErrorKind::DecodeError.name(), "DecodeError");
    assert_eq!(ErrorKind::SerializationError.name(), "SerializationError");
    assert_eq!(ErrorKind::CompressionError.name(), "CompressionError");
}
