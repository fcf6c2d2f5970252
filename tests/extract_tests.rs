use nanoget_rs::collection::MetricsCollection;
use nanoget_rs::extract::{
    finish_extraction, parse_rich_fastq_metadata, process_bam_record, process_fasta_record,
    process_fastq_minimal_record, process_fastq_record, process_summary, process_ubam_record,
    AlignedRecord, ReadType,
};
use nanoget_rs::{NanogetError, Timestamp};

fn strings(v: &[&str]) -> Vec<String> {
    v.iter().map(|s| s.to_string()).collect()
}

#[test]
fn test_rich_fastq_metadata_parsing() {
    let desc = "ch=100 start_time=1234567890.5 duration=2.5 runid=test_run";
    let metadata = parse_rich_fastq_metadata(desc).unwrap();

    assert_eq!(metadata.channel_id, Some(100));
    assert_eq!(metadata.duration, Some(2_500));
    assert_eq!(metadata.run_id, Some("test_run".to_string()));
    assert_eq!(metadata.start_time, Some(Timestamp { secs: 1_234_567_890, nanos: 500_000_000 }));
}

#[test]
fn rich_metadata_ignores_unknown_keys_and_stray_words() {
    assert!(parse_rich_fastq_metadata("").is_none());
    assert!(parse_rich_fastq_metadata("flowcell=FAK1 sample  barcode").is_none());
    let m = parse_rich_fastq_metadata("  read=5\tch=7   extra  ch=8 ").unwrap();
    assert_eq!(m.channel_id, Some(8));
    assert!(m.start_time.is_none());
    assert!(m.duration.is_none());
    assert!(m.run_id.is_none());
}

#[test]
fn rich_metadata_unparsable_values() {
    assert!(parse_rich_fastq_metadata("ch=abc").is_none());
    assert!(parse_rich_fastq_metadata("ch=70000").is_none());
    let m = parse_rich_fastq_metadata("ch=3 ch=x runid=r1").unwrap();
    assert_eq!(m.channel_id, None);
    assert_eq!(m.run_id, Some("r1".to_string()));
    let t = parse_rich_fastq_metadata("start_time=12.0000000019 start_time=bad").unwrap();
    assert_eq!(t.start_time, Some(Timestamp { secs: 12, nanos: 1 }));
}

#[test]
fn fastq_records_keep_ids_and_quality() {
    let r = process_fastq_record("read1".to_string(), 100, Some(40_000), None, false);
    assert_eq!(r.read_id, Some("read1".to_string()));
    assert_eq!(r.length, 100);
    assert_eq!(r.quality, Some(40_000));
    assert!(r.channel_id.is_none());
    let rich = process_fastq_record(
        "read2".to_string(),
        99,
        None,
        Some("ch=7 runid=abc duration=0.25".to_string()),
        true,
    );
    assert_eq!(rich.channel_id, Some(7));
    assert_eq!(rich.run_id, Some("abc".to_string()));
    assert_eq!(rich.duration, Some(250));
    assert_eq!(rich.quality, None);
    let plain = process_fastq_record(
        "read3".to_string(),
        5,
        None,
        Some("ch=7".to_string()),
        false,
    );
    assert_eq!(plain.channel_id, None);
}

#[test]
fn minimal_fastq_records_have_no_id() {
    let r = process_fastq_minimal_record(100);
    assert_eq!(r.read_id, None);
    assert_eq!(r.length, 100);
    assert_eq!(r.quality, None);
}

#[test]
fn fasta_records_have_no_quality() {
    let reads = vec![
        process_fasta_record("sequence1".to_string(), 100),
        process_fasta_record("sequence2".to_string(), 99),
    ];
    assert!(reads.iter().all(|r| r.quality.is_none()));
    assert_eq!(reads[0].read_id, Some("sequence1".to_string()));
    let c = MetricsCollection::new(reads);
    assert_eq!(c.summary.read_count, 2);
    assert!(c.summary.quality_stats.is_none());
    assert_eq!(c.summary.length_stats.count, 2);
}

fn aligned(qual: Vec<u8>, mapq: u8, unmapped: bool, supplementary: bool) -> AlignedRecord {
    AlignedRecord { name: "aln".to_string(), length: 50, qual, mapq, unmapped, supplementary }
}

#[test]
fn aligned_record_with_unknown_qualities_has_no_quality() {
    let r = process_bam_record(aligned(vec![255; 50], 60, false, false), Some(12_000), true)
        .expect("kept");
    assert_eq!(r.quality, None);
    assert_eq!(r.aligned_quality, None);
    assert_eq!(r.aligned_length, Some(50));
    assert_eq!(r.mapping_quality, Some(60));
    assert_eq!(r.percent_identity, Some(95_000));
    let empty = process_bam_record(aligned(vec![], 60, false, false), None, true).expect("kept");
    assert_eq!(empty.quality, None);
}

#[test]
fn aligned_record_quality_and_mapping_quality() {
    let r = process_bam_record(aligned(vec![30, 255, 40], 255, false, false), Some(33_000), true)
        .expect("kept");
    assert_eq!(r.quality, Some(33_000));
    assert_eq!(r.aligned_quality, Some(33_000));
    assert_eq!(r.mapping_quality, None);
    assert_eq!(r.read_id, Some("aln".to_string()));
}

#[test]
fn unmapped_and_supplementary_records_are_dropped() {
    assert!(process_bam_record(aligned(vec![30], 60, true, false), Some(30_000), true).is_none());
    assert!(process_bam_record(aligned(vec![30], 60, false, true), Some(30_000), false).is_none());
    assert!(process_bam_record(aligned(vec![30], 60, false, true), Some(30_000), true).is_some());
}

#[test]
fn unaligned_records_are_never_dropped() {
    let r = process_ubam_record(aligned(vec![255, 255], 60, true, true), Some(5_000));
    assert_eq!(r.quality, None);
    assert_eq!(r.aligned_length, None);
    assert_eq!(r.mapping_quality, None);
    let q = process_ubam_record(aligned(vec![20, 30], 0, false, false), Some(22_000));
    assert_eq!(q.quality, Some(22_000));
}

fn header() -> Vec<String> {
    strings(&[
        "read_id",
        "channel",
        "start_time",
        "duration",
        "sequence_length_template",
        "mean_qscore_template",
        "barcode_arrangement",
    ])
}

#[test]
fn summary_table_rows_become_records() {
    let rows = vec![
        strings(&["r1", "12", "1600000000.25", "1.5", "1500", "9.876", "barcode01"]),
        strings(&["r2", "x", "", "2", "300", "12", "unclassified"]),
    ];
    let reads = process_summary(&header(), &rows, "1D", true).expect("table");
    assert_eq!(reads.len(), 2);
    assert_eq!(reads[0].read_id, None);
    assert_eq!(reads[0].length, 1500);
    assert_eq!(reads[0].quality, Some(9_876));
    assert_eq!(reads[0].channel_id, Some(12));
    assert_eq!(reads[0].start_time, Some(Timestamp { secs: 1_600_000_000, nanos: 250_000_000 }));
    assert_eq!(reads[0].duration, Some(1_500));
    assert_eq!(reads[0].barcode, Some("barcode01".to_string()));
    assert_eq!(reads[1].channel_id, None);
    assert_eq!(reads[1].start_time, None);
    assert_eq!(reads[1].quality, Some(12_000));
    let plain = process_summary(&header(), &rows, "1D", false).expect("table");
    assert_eq!(plain[0].barcode, None);
}

#[test]
fn summary_table_missing_length_column_fails() {
    let h = strings(&["read_id", "mean_qscore_template"]);
    let rows = vec![strings(&["r1", "9.0"])];
    match process_summary(&h, &rows, "1D", false) {
        Err(NanogetError::ParseError(m)) => assert!(m.contains("sequence_length_template")),
        other => panic!("unexpected {:?}", other),
    }
    assert!(matches!(process_summary(&h, &vec![], "1D", false), Err(NanogetError::ParseError(_))));
}

#[test]
fn summary_table_two_direction_columns() {
    let h = strings(&["sequence_length_2d", "mean_qscore_2d"]);
    let rows = vec![strings(&["42", "7.5"])];
    let reads = process_summary(&h, &rows, "1D2", false).expect("table");
    assert_eq!(reads[0].length, 42);
    assert_eq!(reads[0].quality, Some(7_500));
    assert!(matches!(process_summary(&h, &rows, "1D", false), Err(NanogetError::ParseError(_))));
}

#[test]
fn summary_table_bad_values_and_read_types() {
    let rows = vec![strings(&["r1", "1", "0", "1", "abc", "9.0", "b"])];
    assert!(matches!(process_summary(&header(), &rows, "1D", false), Err(NanogetError::ParseError(_))));
    let short = vec![strings(&["r1", "1"])];
    assert!(matches!(process_summary(&header(), &short, "1D", false), Err(NanogetError::ParseError(_))));
    assert!(matches!(process_summary(&header(), &rows, "3D", false), Err(NanogetError::InvalidInput(_))));
    assert_eq!(ReadType::from_name("2D").unwrap(), ReadType::TwoD);
    assert_eq!(ReadType::from_name("1D").unwrap(), ReadType::OneD);
}

#[test]
fn extraction_without_reads_fails() {
    let empty = MetricsCollection::new(vec![]);
    assert!(matches!(
        finish_extraction(vec![empty], "simple", None),
        Err(NanogetError::ProcessingError(_))
    ));
    let one = MetricsCollection::new(vec![process_fasta_record("s".to_string(), 3)]);
    let done = finish_extraction(vec![one], "simple", None).expect("reads");
    assert_eq!(done.summary.read_count, 1);
}
