use nanoget_rs::collection::MetricsCollection;
use nanoget_rs::metrics::{MetricsSummary, ReadMetrics};
use nanoget_rs::stats::StatsSummary;

fn mean(s: &StatsSummary) -> f64 {
    s.sum as f64 / s.count as f64
}

#[test]
fn test_stats_summary() {
    let values = vec![1, 2, 3, 4, 5];
    let stats = StatsSummary::from_values(&values);

    assert_eq!(stats.count, 5);
    assert_eq!(mean(&stats), 3.0);
    assert_eq!(stats.median_quarters as f64 / 4.0, 3.0);
    assert_eq!(stats.min, 1);
    assert_eq!(stats.max, 5);
}

#[test]
fn stats_of_empty_input_are_zero() {
    let stats = StatsSummary::from_values(&[]);
    assert_eq!(stats.count, 0);
    assert_eq!(stats.sum, 0);
    assert_eq!(stats.sum_squares, 0);
    assert_eq!(stats.min, 0);
    assert_eq!(stats.max, 0);
    assert_eq!(stats.q25_quarters, 0);
    assert_eq!(stats.median_quarters, 0);
    assert_eq!(stats.q75_quarters, 0);
}

#[test]
fn stats_of_single_value() {
    let stats = StatsSummary::from_values(&[7]);
    assert_eq!(stats.count, 1);
    assert_eq!(stats.min, 7);
    assert_eq!(stats.max, 7);
    assert_eq!(stats.q25_quarters, 28);
    assert_eq!(stats.median_quarters, 28);
    assert_eq!(stats.q75_quarters, 28);
    assert_eq!(stats.sum_squares, 49);
}

#[test]
fn median_of_even_count_is_midpoint() {
    let stats = StatsSummary::from_values(&[4, 1, 3, 2]);
    assert_eq!(stats.median_quarters, 10);
    let odd = StatsSummary::from_values(&[5, 1, 3]);
    assert_eq!(odd.median_quarters, 12);
}

#[test]
fn quartiles_interpolate_and_are_ordered() {
    let stats = StatsSummary::from_values(&[10, 1, 7, 3, 9, 2]);
    assert_eq!(stats.min, 1);
    assert_eq!(stats.max, 10);
    assert_eq!(stats.q25_quarters, 9);
    assert_eq!(stats.median_quarters, 20);
    assert_eq!(stats.q75_quarters, 34);
    assert!(4 * stats.min as u64 <= stats.q25_quarters);
    assert!(stats.q25_quarters <= stats.median_quarters);
    assert!(stats.median_quarters <= stats.q75_quarters);
    assert!(stats.q75_quarters <= 4 * stats.max as u64);
}

#[test]
fn duplicate_values_and_population_deviation() {
    let stats = StatsSummary::from_values(&[2, 4, 4, 4, 5, 5, 7, 9]);
    assert_eq!(stats.sum, 40);
    assert_eq!(stats.sum_squares, 232);
    let m = mean(&stats);
    let variance = stats.sum_squares as f64 / stats.count as f64 - m * m;
    assert_eq!(variance.sqrt(), 2.0);
    assert_eq!(stats.median_quarters, 18);
}

#[test]
fn test_read_metrics_builder() {
    let metrics = ReadMetrics::new(Some("read1".to_string()), 1000)
        .with_quality(35_000)
        .with_alignment(950, Some(36_000), Some(60), Some(95_500));

    assert_eq!(metrics.length, 1000);
    assert_eq!(metrics.quality, Some(35_000));
    assert_eq!(metrics.aligned_length, Some(950));
    assert_eq!(metrics.percent_identity, Some(95_500));
}

#[test]
fn summary_leaves_out_undefined_attributes() {
    let reads = vec![
        ReadMetrics::new(Some("a".to_string()), 100).with_quality(20_000),
        ReadMetrics::new(Some("b".to_string()), 300),
        ReadMetrics::new(Some("c".to_string()), 200).with_quality(30_000),
    ];
    let summary = MetricsSummary::from_reads(&reads);
    assert_eq!(summary.read_count, 3);
    assert_eq!(summary.length_stats.count, 3);
    assert_eq!(summary.length_stats.sum, 600);
    let q = summary.quality_stats.expect("quality stats");
    assert_eq!(q.count, 2);
    assert_eq!(q.sum, 50_000);
    assert!(summary.mapping_quality_stats.is_none());
    assert!(summary.percent_identity_stats.is_none());
    assert!(summary.channel_distribution.is_none());
    assert!(summary.barcode_distribution.is_none());
}

#[test]
fn summary_counts_channels_and_barcodes() {
    let mut a = ReadMetrics::new(None, 10).with_sequencing_metadata(Some(5), None, None);
    a.barcode = Some("bc01".to_string());
    let mut b = ReadMetrics::new(None, 20).with_sequencing_metadata(Some(5), None, None);
    b.barcode = Some("bc02".to_string());
    let mut c = ReadMetrics::new(None, 30).with_sequencing_metadata(Some(9), None, None);
    c.barcode = Some("bc01".to_string());
    let d = ReadMetrics::new(None, 40);
    let summary = MetricsSummary::from_reads(&[a, b, c, d]);
    let channels = summary.channel_distribution.expect("channels");
    assert_eq!(channels.len(), 2);
    assert_eq!(channels[&5], 2);
    assert_eq!(channels[&9], 1);
    let barcodes = summary.barcode_distribution.expect("barcodes");
    assert_eq!(barcodes, vec![("bc01".to_string(), 2), ("bc02".to_string(), 1)]);
}

#[test]
fn mapping_quality_and_identity_statistics() {
    let reads = vec![
        ReadMetrics::new(None, 10).with_alignment(10, None, Some(60), Some(95_000)),
        ReadMetrics::new(None, 10).with_alignment(10, None, Some(20), Some(95_000)),
    ];
    let summary = MetricsSummary::from_reads(&reads);
    let mq = summary.mapping_quality_stats.expect("mapq");
    assert_eq!(mq.sum, 80);
    assert_eq!(mq.min, 20);
    let pid = summary.percent_identity_stats.expect("identity");
    assert_eq!(pid.sum, 190_000);
}

fn two_reads() -> MetricsCollection {
    MetricsCollection::new(vec![
        ReadMetrics::new(Some("read1".to_string()), 100).with_quality(40_000),
        ReadMetrics::new(Some("read2".to_string()), 99).with_quality(41_000),
    ])
}

#[test]
fn plain_combination_of_two_files() {
    let combined = MetricsCollection::combine(vec![two_reads(), two_reads()], "simple", None);
    assert_eq!(combined.reads.len(), 4);
    assert_eq!(combined.summary.read_count, 4);
    assert_eq!(mean(&combined.summary.length_stats), 99.5);
    let lengths: Vec<u32> = combined.reads.iter().map(|r| r.length).collect();
    assert_eq!(lengths, vec![100, 99, 100, 99]);
    assert!(combined.reads.iter().all(|r| r.dataset.is_none()));
}

#[test]
fn tracked_combination_labels_each_source() {
    let names = Some(vec!["sample1".to_string(), "sample2".to_string()]);
    let combined = MetricsCollection::combine(vec![two_reads(), two_reads()], "track", names);
    assert_eq!(combined.summary.read_count, 4);
    let labels: Vec<Option<String>> = combined.reads.iter().map(|r| r.dataset.clone()).collect();
    assert_eq!(
        labels,
        vec![
            Some("sample1".to_string()),
            Some("sample1".to_string()),
            Some("sample2".to_string()),
            Some("sample2".to_string())
        ]
    );
    assert_eq!(combined.reads[1].read_id, Some("read2".to_string()));
}

#[test]
fn tracked_combination_without_names_uses_positions() {
    let names = Some(vec!["only".to_string()]);
    let combined =
        MetricsCollection::combine(vec![two_reads(), two_reads(), two_reads()], "track", names);
    assert_eq!(combined.reads[0].dataset, Some("only".to_string()));
    assert_eq!(combined.reads[2].dataset, Some("dataset_1".to_string()));
    assert_eq!(combined.reads[5].dataset, Some("dataset_2".to_string()));
    let unnamed = MetricsCollection::combine(vec![two_reads()], "track", None);
    assert_eq!(unnamed.reads[0].dataset, Some("dataset_0".to_string()));
}

#[test]
fn filter_by_length_recomputes_summary() {
    let c = MetricsCollection::new(vec![
        ReadMetrics::new(None, 100),
        ReadMetrics::new(None, 99),
        ReadMetrics::new(None, 150),
    ]);
    let long = c.filter_by_length(100);
    assert_eq!(long.reads.len(), 2);
    assert!(long.reads.iter().all(|r| r.length >= 100));
    assert_eq!(long.summary.read_count, 2);
    assert_eq!(long.summary.length_stats.sum, 250);
    assert_eq!(long.summary.length_stats.min, 100);
}

#[test]
fn filter_by_quality_drops_reads_without_quality() {
    let c = MetricsCollection::new(vec![
        ReadMetrics::new(None, 1).with_quality(10_000),
        ReadMetrics::new(None, 2),
        ReadMetrics::new(None, 3).with_quality(30_000),
    ]);
    let good = c.filter_by_quality(20_000);
    assert_eq!(good.reads.len(), 1);
    assert_eq!(good.reads[0].length, 3);
    assert_eq!(good.summary.read_count, 1);
}

#[test]
fn reads_above_median_length() {
    let c = MetricsCollection::new(
        [30, 10, 50, 20, 40].iter().map(|&l| ReadMetrics::new(None, l)).collect(),
    );
    let upper = c.reads_above_length_percentile(50);
    let lengths: Vec<u32> = upper.reads.iter().map(|r| r.length).collect();
    assert_eq!(lengths, vec![30, 50, 40]);
    let empty = MetricsCollection::new(vec![]);
    assert_eq!(empty.reads_above_length_percentile(50).reads.len(), 0);
}

#[test]
fn reads_for_dataset_selects_by_label() {
    let names = Some(vec!["A".to_string(), "B".to_string()]);
    let combined = MetricsCollection::combine(vec![two_reads(), two_reads()], "track", names);
    let b = combined.reads_for_dataset("B");
    assert_eq!(b.len(), 2);
    assert!(b.iter().all(|r| r.dataset.as_deref() == Some("B")));
    assert_eq!(combined.reads_for_dataset("C").len(), 0);
}

#[test]
fn test_dataset_functionality() {
    let reads = vec![
        ReadMetrics::new(Some("read1".to_string()), 100),
        ReadMetrics::new(Some("read2".to_string()), 200),
    ];

    let mut collection = MetricsCollection::new(reads);

    collection.reads[0].dataset = Some("Sample1".to_string());
    collection.reads[1].dataset = Some("Sample2".to_string());

    let dataset_names = collection.dataset_names();
    assert_eq!(dataset_names, vec!["Sample1", "Sample2"]);

    let sample1_reads = collection.reads_for_dataset("Sample1");
    assert_eq!(sample1_reads.len(), 1);
    assert_eq!(sample1_reads[0].read_id, Some("read1".to_string()));
}

#[test]
fn dataset_names_are_sorted_and_distinct() {
    let mut reads: Vec<ReadMetrics> = (0..6).map(|i| ReadMetrics::new(None, i)).collect();
    let labels = [Some("b"), Some("a"), None, Some("b"), Some("A"), Some("ab")];
    for (r, l) in reads.iter_mut().zip(labels.iter()) {
        r.dataset = l.map(|s| s.to_string());
    }
    let c = MetricsCollection::new(reads);
    assert_eq!(c.dataset_names(), vec!["A", "a", "ab", "b"]);
    assert!(MetricsCollection::new(vec![]).dataset_names().is_empty());
}

#[test]
fn test_tsv_output() {
    let read1 = ReadMetrics::new(Some("read1".to_string()), 1000).with_quality(35_500);
    let read2 = ReadMetrics::new(Some("read2".to_string()), 2000)
        .with_quality(40_000)
        .with_alignment(1900, Some(41_000), Some(60), Some(95_500));

    let metrics = MetricsCollection::new(vec![read1, read2]);
    let tsv_output = metrics.to_tsv().unwrap();

    assert!(tsv_output.contains("read_id\tlength\tquality"));

    assert!(tsv_output.contains("read1\t1000\t35.500"));
    assert!(tsv_output.contains("read2\t2000\t40.000"));

    assert!(tsv_output.contains("# Summary Statistics"));
    assert!(tsv_output.contains("# Total reads: 2"));
    assert!(tsv_output.contains("# Length stats"));
    assert!(tsv_output.contains("# Quality stats"));
}

#[test]
fn tsv_rows_render_every_column() {
    let mut r = ReadMetrics::new(Some("r".to_string()), 7)
        .with_quality(12_345)
        .with_alignment(6, Some(1_000), None, Some(95_000))
        .with_sequencing_metadata(
            Some(3),
            Some(nanoget_rs::Timestamp { secs: 1_234_567_890, nanos: 500_000_000 }),
            Some(2_500),
        );
    r.barcode = Some("bc".to_string());
    r.run_id = Some("run".to_string());
    r.dataset = Some("d".to_string());
    let tsv = MetricsCollection::new(vec![r, ReadMetrics::new(None, 5)]).to_tsv().unwrap();
    assert!(tsv.starts_with("read_id\tlength\tquality\taligned_length\t"));
    assert!(tsv.contains(
        "\nr\t7\t12.345\t6\t1.000\t\t95.000\t3\t2009-02-13T23:31:30.500+00:00\t2.500\tbc\trun\td\n"
    ));
    assert!(tsv.contains("\n\t5\t\t\t\t\t\t\t\t\t\t\t\n"));
    assert!(!tsv.contains("# Mapping quality stats"));
    assert!(tsv.contains("# Percent identity stats - count: 1, mean: 95.00,"));
}

#[test]
fn tsv_statistics_lines_are_exact() {
    let reads = vec![
        ReadMetrics::new(None, 100).with_quality(35_500),
        ReadMetrics::new(None, 99).with_quality(40_000),
        ReadMetrics::new(None, 100),
        ReadMetrics::new(None, 99),
    ];
    let tsv = MetricsCollection::new(reads).to_tsv().unwrap();
    assert!(tsv.contains(
        "# Length stats - count: 4, mean: 99.50, median: 99.50, min: 99.00, max: 100.00, std_dev: 0.50, q25: 99.00, q75: 100.00\n"
    ));
    assert!(tsv.contains(
        "# Quality stats - count: 2, mean: 37.75, median: 37.75, min: 35.50, max: 40.00, std_dev: 2.25, q25: 36.63, q75: 38.88\n"
    ));
    assert!(tsv.ends_with("q75: 38.88\n"));
}

#[test]
fn standard_deviation_in_hundredths() {
    let s = StatsSummary::from_values(&[2, 4, 4, 4, 5, 5, 7, 9]);
    assert_eq!(s.std_dev_hundredths(false), 200);
    let one = StatsSummary::from_values(&[42]);
    assert_eq!(one.std_dev_hundredths(false), 0);
    let q = StatsSummary::from_values(&[1_000, 2_000]);
    assert_eq!(q.std_dev_hundredths(true), 50);
    let irrational = StatsSummary::from_values(&[0, 1, 2]);
    assert_eq!(irrational.std_dev_hundredths(false), 82);
    assert_eq!(StatsSummary::from_values(&[]).std_dev_hundredths(false), 0);
}
