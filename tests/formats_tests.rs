use nanoget_rs::utils::{calculate_percent_identity, check_file_exists, create_interner, CompressionType, StringInterner};
use nanoget_rs::{ExtractArgs, FileType, NanogetError};
use std::sync::Arc;

#[test]
fn test_file_type_detection() {
    assert_eq!(FileType::from_extension("test.fastq"), Some(FileType::Fastq));
    assert_eq!(FileType::from_extension("test.bam"), Some(FileType::Bam));
    assert_eq!(FileType::from_extension("sequencing_summary.txt"), Some(FileType::Summary));
    assert_eq!(FileType::from_extension("test.unknown"), None);
}

#[test]
fn file_type_detection_ignores_case_of_extension() {
    assert_eq!(FileType::from_extension("runs/READS.FQ"), Some(FileType::Fastq));
    assert_eq!(FileType::from_extension("genome.Fasta"), Some(FileType::Fasta));
    assert_eq!(FileType::from_extension("a/b/sample.CRAM"), Some(FileType::Cram));
    assert_eq!(FileType::from_extension("data/notes.txt"), None);
    assert_eq!(FileType::from_extension("summary_dir/notes.tsv"), None);
    assert_eq!(FileType::from_extension("run_summary.tsv"), Some(FileType::Summary));
    assert_eq!(FileType::from_extension(".fastq"), None);
    assert_eq!(FileType::from_extension("noext"), None);
}

#[test]
fn only_summary_tables_are_read_whole() {
    assert!(FileType::Fastq.supports_parallel());
    assert!(FileType::Bam.supports_parallel());
    assert!(FileType::Ubam.supports_parallel());
    assert!(!FileType::Summary.supports_parallel());
}

#[test]
fn test_compression_detection() {
    assert!(matches!(CompressionType::from_path("test.fastq"), CompressionType::Uncompressed));
    assert!(matches!(CompressionType::from_path("test.fastq.gz"), CompressionType::Gzip));
    assert!(matches!(CompressionType::from_path("test.fastq.bz2"), CompressionType::Bzip2));
}

#[test]
fn compression_detection_ignores_case() {
    assert!(matches!(CompressionType::from_path("READS.FASTQ.GZ"), CompressionType::Gzip));
    assert!(matches!(CompressionType::from_path("reads.Bz2"), CompressionType::Bzip2));
    assert!(matches!(CompressionType::from_path("reads.gzip"), CompressionType::Uncompressed));
}

#[test]
fn test_percent_identity() {
    assert_eq!(calculate_percent_identity(95, 100), 95_000);
    assert_eq!(calculate_percent_identity(0, 0), 0);
    assert_eq!(calculate_percent_identity(100, 100), 100_000);
}

#[test]
fn percent_identity_rounds_down() {
    assert_eq!(calculate_percent_identity(1, 3), 33_333);
}

#[test]
fn missing_file_is_reported_with_its_path() {
    assert!(check_file_exists("reads.fastq", true).is_ok());
    match check_file_exists("missing.fastq", false) {
        Err(NanogetError::FileNotFound(p)) => assert_eq!(p, "missing.fastq"),
        other => panic!("unexpected {:?}", other),
    }
}

#[test]
fn interner_shares_equal_strings() {
    let mut interner = StringInterner::new();
    let a = interner.intern("read1".to_string());
    let b = interner.intern("read1".to_string());
    let c = interner.intern("read2".to_string());
    assert!(Arc::ptr_eq(&a, &b));
    assert!(!Arc::ptr_eq(&a, &c));
    assert_eq!(*c, "read2");
    let shared = create_interner();
    let d = shared.lock().unwrap().intern("x".to_string());
    assert_eq!(*d, "x");
}

fn args(threads: usize, huge: bool) -> ExtractArgs {
    ExtractArgs {
        files: vec!["reads.fastq".to_string()],
        file_type: FileType::Fastq,
        threads,
        output_format: "json".to_string(),
        output: None,
        read_type: "1D".to_string(),
        barcoded: false,
        keep_supplementary: true,
        huge,
        combine: "simple".to_string(),
        names: None,
    }
}

#[test]
fn worker_count_is_at_least_one() {
    assert_eq!(args(4, false).worker_count(), 4);
    assert_eq!(args(0, false).worker_count(), 1);
    assert_eq!(args(8, true).worker_count(), 1);
}
