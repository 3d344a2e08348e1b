use pipeline_bench::decimal::{push_decimal, push_padded};
use pipeline_bench::ledger::{ledger_entry, ledger_line, push_score};
use pipeline_bench::metric::PerDocumentMetric;
use pipeline_bench::ratio::{comparative_score, BaselineMeasurement, ComparativeScore};
use pipeline_bench::strategy::{CompressionStrategy, Pipeline, SerializationStrategy};

fn text_of(score: i128) -> String {
    let mut out = String::new();
    push_score(&mut out, score);
    out
}

fn json_zstd() -> Pipeline {
    Pipeline {
        serialization: SerializationStrategy::Json,
        compression: CompressionStrategy::Zstd(9),
    }
}

#[test]
fn an_empty_label_leaves_the_strategy_name_first() {
    let score = ComparativeScore { ccr: 500_000_000, ctr: -250_000_000 };
    let line = ledger_line("", &json_zstd(), &score);
    assert_eq!(line, "Json, Zstd(9) => ccr: 0.50000; ctr: -0.25000");
    assert!(line.starts_with("Json"));
}

#[test]
fn a_label_stands_before_the_strategy_name() {
    let score = ComparativeScore { ccr: 0, ctr: 1_000_000_000 };
    let pipeline = Pipeline {
        serialization: SerializationStrategy::Bitcode,
        compression: CompressionStrategy::Gzip(5),
    };
    let line = ledger_line("nightly: ", &pipeline, &score);
    assert_eq!(line, "nightly: Bitcode, Gzip(5) => ccr: 0.00000; ctr: 1.00000");
    assert_eq!(line, format!("nightly: {}", ledger_line("", &pipeline, &score)));
}

#[test]
fn every_strategy_has_its_name() {
    assert_eq!(SerializationStrategy::Json.name(), "Json");
    assert_eq!(SerializationStrategy::Bitcode.name(), "Bitcode");
    assert_eq!(SerializationStrategy::Flatbuffers.name(), "Flatbuffers");
    assert_eq!(CompressionStrategy::Gzip(5).descriptor(), "Gzip(5)");
    assert_eq!(CompressionStrategy::Zstd(9).descriptor(), "Zstd(9)");
    assert_eq!(CompressionStrategy::Zstd(0).descriptor(), "Zstd(0)");
    assert_eq!(CompressionStrategy::Gzip(255).descriptor(), "Gzip(255)");
    assert_eq!(CompressionStrategy::Zstd(19).level(), 19);
    assert_eq!(CompressionStrategy::Gzip(10).codec(), "Gzip");
}

#[test]
fn the_reference_pipeline_is_json_with_gzip_at_five() {
    let pipeline = Pipeline::baseline();
    assert_eq!(pipeline.serialization, SerializationStrategy::Json);
    assert_eq!(pipeline.compression, CompressionStrategy::Gzip(5));
}

#[test]
fn scores_show_five_decimal_places() {
    assert_eq!(text_of(0), "0.00000");
    assert_eq!(text_of(1_000_000_000), "1.00000");
    assert_eq!(text_of(123_456_789), "0.12346");
    assert_eq!(text_of(-123_456_789), "-0.12346");
    assert_eq!(text_of(12_345_678_900), "12.34568");
    assert_eq!(text_of(10_000), "0.00001");
    assert_eq!(text_of(90_000_000), "0.09000");
}

#[test]
fn scores_round_to_the_nearest_and_away_from_zero_at_the_half() {
    assert_eq!(text_of(4_999), "0.00000");
    assert_eq!(text_of(5_000), "0.00001");
    assert_eq!(text_of(14_999), "0.00001");
    assert_eq!(text_of(15_000), "0.00002");
    assert_eq!(text_of(-5_000), "-0.00001");
    assert_eq!(text_of(999_995_000), "1.00000");
    assert_eq!(text_of(999_994_999), "0.99999");
}

#[test]
fn a_score_below_zero_keeps_its_sign() {
    assert_eq!(text_of(-1), "-0.00000");
    assert_eq!(text_of(-4_999), "-0.00000");
    assert_eq!(text_of(-1_000_000_000), "-1.00000");
}

#[test]
fn the_widest_scores_are_shown() {
    assert_eq!(text_of(i128::MAX), "170141183460469231731687303715.88411");
    assert_eq!(text_of(i128::MIN), "-170141183460469231731687303715.88411");
}

#[test]
fn scores_agree_with_float_formatting() {
    for score in [0i128, 1, 250_000_000, -250_000_000, 333_333_333, 9_090_420, -9_090_910] {
        let float = score as f64 / 1e9;
        assert_eq!(text_of(score), format!("{:.5}", float));
    }
}

#[test]
fn an_entry_is_the_line_and_one_line_break() {
    let score = ComparativeScore { ccr: 42_000_000, ctr: -7_000_000 };
    let pipeline = Pipeline {
        serialization: SerializationStrategy::Flatbuffers,
        compression: CompressionStrategy::Zstd(9),
    };
    let entry = ledger_entry("", &pipeline, &score);
    assert_eq!(entry, "Flatbuffers, Zstd(9) => ccr: 0.04200; ctr: -0.00700\n");
    assert_eq!(entry, format!("{}\n", ledger_line("", &pipeline, &score)));
    assert_eq!(entry.matches('\n').count(), 1);
    assert!(entry.ends_with('\n'));
}

#[test]
fn two_results_make_two_lines_in_call_order() {
    let mut ledger = String::from("Json, Gzip(5) => ccr: 0.00000; ctr: 0.00000\n");
    let before = ledger.clone();
    let first = ledger_entry("", &json_zstd(), &ComparativeScore { ccr: 1, ctr: 2 });
    let second = ledger_entry(
        "again ",
        &json_zstd(),
        &ComparativeScore { ccr: 300_000_000, ctr: 400_000_000 },
    );
    ledger.push_str(&first);
    ledger.push_str(&second);
    assert!(ledger.starts_with(&before));
    let lines: Vec<&str> = ledger.lines().collect();
    assert_eq!(
        lines,
        vec![
            "Json, Gzip(5) => ccr: 0.00000; ctr: 0.00000",
            "Json, Zstd(9) => ccr: 0.00000; ctr: 0.00000",
            "again Json, Zstd(9) => ccr: 0.30000; ctr: 0.40000",
        ]
    );
    let mut fresh = String::new();
    fresh.push_str(&first);
    fresh.push_str(&second);
    assert_eq!(fresh.lines().count(), 2);
}

#[test]
fn a_scored_trial_is_reported_in_one_line() {
    let baseline = BaselineMeasurement::new(vec![
        PerDocumentMetric { size_bytes: 2_000_000, latency_picos: 8_000 },
        PerDocumentMetric { size_bytes: 4_000_000, latency_picos: 6_000 },
    ])
    .unwrap();
    let candidate = vec![
        PerDocumentMetric { size_bytes: 1_000_000, latency_picos: 10_000 },
        PerDocumentMetric { size_bytes: 2_000_000, latency_picos: 6_000 },
    ];
    let score = comparative_score(&baseline, &candidate).unwrap();
    let line = ledger_line("", &json_zstd(), &score);
    assert_eq!(line, "Json, Zstd(9) => ccr: 0.50000; ctr: -0.12500");
}

#[test]
fn numbers_are_written_in_decimal() {
    let mut out = String::from("n=");
    push_decimal(&mut out, 0);
    out.push(' ');
    push_decimal(&mut out, 7);
    out.push(' ');
    push_decimal(&mut out, 10);
    out.push(' ');
    push_decimal(&mut out, 9_007_199_254_740_993);
    out.push(' ');
    push_decimal(&mut out, u128::MAX);
    assert_eq!(out, "n=0 7 10 9007199254740993 340282366920938463463374607431768211455");
}

#[test]
fn padded_numbers_keep_their_leading_zeros() {
    let mut out = String::new();
    push_padded(&mut out, 42, 5);
    out.push(' ');
    push_padded(&mut out, 0, 3);
    out.push(' ');
    push_padded(&mut out, 123_456, 4);
    out.push(' ');
    push_padded(&mut out, 9, 0);
    out.push(' ');
    push_padded(&mut out, 99_999, 5);
    assert_eq!(out, "00042 000 3456  99999");
}
