use sequintools::calibration::calibrate;
use sequintools::calibration::calibrate_by_fixed_coverage;
use sequintools::calibration::calibrate_by_sample_profile;
use sequintools::calibration::calibrate_regions;
use sequintools::calibration::choose_from;
use sequintools::calibration::determine_downsampling_probabilities;
use sequintools::calibration::records_that_start_in_region;
use sequintools::calibration::regions_coverage;
use sequintools::calibration::starts_in;
use sequintools::calibration::subsample;
use sequintools::calibration::window_starts;
use sequintools::calibration::CalibrateError;
use sequintools::calibration::CalibrationMode;
use sequintools::calibration::Prob;
use sequintools::names::assoc_get;
use sequintools::names::NameSet;
use sequintools::records::AlignmentData;
use sequintools::records::Contig;
use sequintools::records::Rec;
use sequintools::records::FLAG_DUPLICATE;
use sequintools::records::FLAG_FIRST_IN_TEMPLATE;
use sequintools::records::FLAG_MATE_REVERSE;
use sequintools::records::FLAG_PAIRED;
use sequintools::region::Region;
use sequintools::rng::SeededRng;

const CHR1_TID: i32 = 0;
const CHRQ_MIRROR_TID: i32 = 3;

fn default_contigs() -> Vec<Contig> {
    vec![
        Contig { name: "chr1".to_owned(), length: 5000 },
        Contig { name: "chr2".to_owned(), length: 5000 },
        Contig { name: "chr3".to_owned(), length: 5000 },
        Contig { name: "chrQ_mirror".to_owned(), length: 9800 },
    ]
}

fn create_mock_reader_with_records(records: Vec<Rec>) -> AlignmentData {
    AlignmentData { contigs: default_contigs(), records }
}

fn create_mock_record(tid: i32, pos: i64, qname: &str) -> Rec {
    Rec::new(tid, pos, qname, 100)
}

fn ten_reads(tid: i32, pos: i64) -> Vec<Rec> {
    (1..=10)
        .map(|i| create_mock_record(tid, pos, &format!("read{}", i)))
        .collect()
}

#[test]
fn test_calibrate_fixed_coverage_mode() {
    let records = ten_reads(CHRQ_MIRROR_TID, 100);
    let reader = create_mock_reader_with_records(records);

    let target_regions = vec![Region::new("chrQ_mirror", 100, 200, "region1")];
    let mode = CalibrationMode::FixedCoverage { fold_coverage: 10, seed: 42 };

    let result = calibrate(&reader, &target_regions, mode, false);
    assert!(result.is_ok());
}

#[test]
fn test_calibrate_fixed_coverage_mode_different_chromosomes() {
    let mut records = ten_reads(CHRQ_MIRROR_TID, 150);
    records[0].flags |= FLAG_PAIRED | FLAG_FIRST_IN_TEMPLATE | FLAG_MATE_REVERSE;
    records[0].mtid = CHR1_TID;
    let reader = create_mock_reader_with_records(records);

    let target_regions = vec![Region::new("chrQ_mirror", 100, 200, "region1")];
    let mode = CalibrationMode::FixedCoverage { fold_coverage: 5, seed: 42 };
    let result = calibrate(&reader, &target_regions, mode, false);
    assert!(result.is_ok(), "Result: {:?}", result.err().map(|e| e.to_string()));
}

fn five_and_fifteen() -> Vec<Rec> {
    let mut records: Vec<Rec> = (1..=5)
        .map(|i| create_mock_record(CHR1_TID, 100, &format!("read{}", i)))
        .collect();
    for i in 6..=15 {
        records.push(create_mock_record(CHRQ_MIRROR_TID, 100, &format!("read{}", i)));
    }
    records
}

#[test]
fn test_calibrate_sample_mean_coverage_mode() {
    let reader = create_mock_reader_with_records(five_and_fifteen());

    let target_regions = vec![Region::new("chrQ_mirror", 100, 200, "region1")];
    let sample_regions = vec![Region::new("chr1", 100, 200, "region1")];
    let mode = CalibrationMode::SampleMeanCoverage { sample_regions, seed: 42 };

    let result = calibrate(&reader, &target_regions, mode, true);
    assert!(result.is_ok());
    let records = result.unwrap();
    // The keep-probability is one half over ten distinct pairs; the kept
    // count is seed-determined and must stay near the expectation of five.
    assert!(records.len() >= 1 && records.len() <= 9, "kept {}", records.len());
}

#[test]
fn test_calibrate_sample_profile_mode() {
    let reader = create_mock_reader_with_records(five_and_fifteen());

    let target_regions = vec![Region::new("chrQ_mirror", 100, 200, "region1")];
    let sample_regions = vec![Region::new("chr1", 100, 200, "region1")];
    let mode = CalibrationMode::SampleProfile {
        sample_regions,
        flank: 50,
        window_size: 10,
        min_mapq: 20,
        seed: 42,
    };

    // Trimming a 50-base flank from a 100-base region empties it, which the
    // region rules reject rather than silently clamp.
    let result = calibrate(&reader, &target_regions, mode, false);
    assert!(result.is_err());
}

#[test]
fn test_calibrate_sample_profile_mode_with_room() {
    let mut records = Vec::new();
    for i in 1..=15 {
        records.push(create_mock_record(CHR1_TID, 100 + 10 * i, &format!("read{}", i)));
    }
    for i in 16..=30 {
        records.push(create_mock_record(
            CHRQ_MIRROR_TID,
            100 + 10 * (i - 15),
            &format!("read{}", i),
        ));
    }
    let reader = create_mock_reader_with_records(records);

    let target_regions = vec![Region::new("chrQ_mirror", 100, 400, "region1")];
    let sample_regions = vec![Region::new("chr1", 100, 400, "region1")];
    let mode = CalibrationMode::SampleProfile {
        sample_regions,
        flank: 50,
        window_size: 10,
        min_mapq: 20,
        seed: 42,
    };

    let result = calibrate(&reader, &target_regions, mode, false);
    assert!(result.is_ok());
}

#[test]
fn test_calibrate_empty_target_regions() {
    let reader = create_mock_reader_with_records(vec![]);

    let target_regions = vec![];
    let mode = CalibrationMode::FixedCoverage { fold_coverage: 10, seed: 42 };

    let result = calibrate(&reader, &target_regions, mode, false);
    assert!(result.is_ok());
}

#[test]
fn test_determine_downsampling_probabilities_fixed_coverage() {
    let reader = create_mock_reader_with_records(ten_reads(CHRQ_MIRROR_TID, 100));

    let target_regions = vec![Region::new("chrQ_mirror", 100, 200, "region1")];

    let result = determine_downsampling_probabilities(&reader, &target_regions, None, 5);
    assert!(result.is_ok());

    let probabilities = result.unwrap();
    let p = assoc_get(&probabilities, "region1").expect("probability for region1");
    let value = p.num as f64 / p.den as f64;
    assert!(value >= 0.0 && value <= 1.0, "Probability out of range: {}", value);
}

#[test]
fn test_determine_downsampling_probabilities_fixed_coverage_too_low() {
    let records = vec![
        create_mock_record(CHRQ_MIRROR_TID, 100, "read1"),
        create_mock_record(CHRQ_MIRROR_TID, 200, "read2"),
    ];
    let reader = create_mock_reader_with_records(records);

    let target_regions = vec![Region::new("chrQ_mirror", 100, 200, "region1")];

    let result = determine_downsampling_probabilities(&reader, &target_regions, None, 10);
    assert!(result.is_err());
}

#[test]
fn test_determine_downsampling_probabilities_with_sample_regions() {
    let reader = create_mock_reader_with_records(five_and_fifteen());

    let target_regions = vec![Region::new("chrQ_mirror", 100, 200, "region1")];
    let sample_regions = vec![Region::new("chr1", 100, 200, "region1")];

    let result = determine_downsampling_probabilities(
        &reader,
        &target_regions,
        Some(&sample_regions),
        10,
    );
    assert!(result.is_ok());

    let probabilities = result.unwrap();
    let p = assoc_get(&probabilities, "region1").expect("probability for region1");
    let value = p.num as f64 / p.den as f64;
    assert!(value >= 0.0 && value <= 1.0, "Probability out of range: {}", value);
}

#[test]
fn test_determine_downsampling_probabilities_zero_coverage() {
    let reader = create_mock_reader_with_records(vec![]);

    let target_regions = vec![Region::new("chrQ_mirror", 0, 1000, "region1")];

    let result = determine_downsampling_probabilities(&reader, &target_regions, None, 10);
    assert!(result.is_err());
}

#[test]
fn test_regions_coverage() {
    let records = vec![
        create_mock_record(CHRQ_MIRROR_TID, 100, "read1"),
        create_mock_record(CHRQ_MIRROR_TID, 200, "read2"),
    ];
    let reader = create_mock_reader_with_records(records);

    let regions = vec![Region::new("chrQ_mirror", 0, 1000, "region1")];

    let result = regions_coverage(&reader, &regions);
    assert!(result.is_ok());

    let coverage = result.unwrap();
    let cov = assoc_get(&coverage, "region1").expect("coverage for region1");
    assert_eq!(cov.total, 200);
    assert_eq!(cov.len, 1000);
}

#[test]
fn test_regions_coverage_empty_regions() {
    let reader = create_mock_reader_with_records(vec![]);

    let result = regions_coverage(&reader, &[]);
    assert!(result.is_ok());
    assert!(result.unwrap().is_empty());
}

#[test]
fn test_subsample() {
    let mut record = create_mock_record(0, 100, "read1");
    record.mpos = 150;
    let mut keep = NameSet::new();
    let considered = NameSet::new();
    let mut rng = SeededRng::from_seed(42);

    let certain = Prob { num: 1, den: 1 };
    let result = subsample(&record, &mut keep, &considered, certain, &mut rng);
    assert!(result);

    let mut record2 = create_mock_record(0, 200, "read2");
    record2.mpos = 250;
    let result = subsample(&record2, &mut keep, &considered, certain, &mut rng);
    assert!(result);
}

#[test]
fn test_subsample_duplicate_read() {
    let mut record = create_mock_record(0, 100, "read1");
    record.flags = FLAG_DUPLICATE;
    let mut keep = NameSet::new();
    let considered = NameSet::new();
    let mut rng = SeededRng::from_seed(42);

    let certain = Prob { num: 1, den: 1 };
    let result = subsample(&record, &mut keep, &considered, certain, &mut rng);
    assert!(!result);
}

#[test]
fn test_window_starts() {
    let records = vec![
        create_mock_record(0, 100, "read1"),
        create_mock_record(0, 150, "read2"),
        create_mock_record(0, 250, "read3"),
    ];
    let reader = create_mock_reader_with_records(records);

    let region = Region::new("chrQ_mirror", 0, 300, "region1");

    let result = window_starts(&reader, &region, 100, 0);
    assert!(result.is_ok());

    let starts = result.unwrap();
    assert_eq!(starts.len(), 3);
}

#[test]
fn test_starts_in() {
    let records = vec![
        create_mock_record(CHRQ_MIRROR_TID, 100, "read1"),
        create_mock_record(CHRQ_MIRROR_TID, 150, "read2"),
        create_mock_record(CHRQ_MIRROR_TID, 250, "read3"),
    ];
    let reader = create_mock_reader_with_records(records);

    let region = Region::new("chrQ_mirror", 0, 200, "region1");

    let result = starts_in(&reader, &region, 0);
    assert!(result.is_ok());
    assert_eq!(result.unwrap(), 2);
}

#[test]
fn test_starts_in_with_min_mapq() {
    let mut record1 = create_mock_record(CHRQ_MIRROR_TID, 100, "read1");
    record1.mapq = 30;
    let mut record2 = create_mock_record(CHRQ_MIRROR_TID, 150, "read2");
    record2.mapq = 10;
    let reader = create_mock_reader_with_records(vec![record1, record2]);

    let region = Region::new("chrQ_mirror", 0, 200, "region1");

    let result = starts_in(&reader, &region, 20);
    assert!(result.is_ok());
    assert_eq!(result.unwrap(), 1);
}

#[test]
fn test_records_that_start_in_region() {
    let records = vec![
        create_mock_record(CHRQ_MIRROR_TID, 100, "read1"),
        create_mock_record(CHRQ_MIRROR_TID, 150, "read2"),
        create_mock_record(CHRQ_MIRROR_TID, 250, "read3"),
    ];
    let reader = create_mock_reader_with_records(records);

    let result = records_that_start_in_region(&reader, "chrQ_mirror", 0, 200);
    assert!(result.is_ok());
    assert_eq!(result.unwrap().len(), 2);
}

#[test]
fn test_records_that_start_in_region_empty() {
    let reader = create_mock_reader_with_records(vec![]);

    let result = records_that_start_in_region(&reader, "chrQ_mirror", 0, 200);
    assert!(result.is_ok());
    assert!(result.unwrap().is_empty());
}

#[test]
fn test_choose_from() {
    let result = choose_from(10, 3, 42);
    assert_eq!(result.len(), 3);
    assert!(result.iter().all(|&x| x < 10));
}

#[test]
fn test_choose_from_sample_too_large() {
    let result = choose_from(5, 10, 42);
    assert_eq!(result.len(), 5);
}

#[test]
fn test_choose_from_zero_sample() {
    let result = choose_from(10, 0, 42);
    assert!(result.is_empty());
}

#[test]
fn test_calibrate_by_fixed_coverage() {
    let reader = create_mock_reader_with_records(ten_reads(CHRQ_MIRROR_TID, 100));

    let target_regions = vec![Region::new("chrQ_mirror", 100, 200, "region1")];
    let mut keep = NameSet::new();
    let sequin_tids = vec![CHRQ_MIRROR_TID];
    let result = calibrate_by_fixed_coverage(
        &reader,
        &target_regions,
        None,
        &mut keep,
        &sequin_tids,
        5,
        42,
    );
    assert!(result.is_ok(), "Expected Ok, got Err: {:?}", result.err().map(|e| e.to_string()));
}

#[test]
fn test_calibrate_by_sample_profile() {
    let reader = create_mock_reader_with_records(five_and_fifteen());

    let target_regions = vec![Region::new("chrQ_mirror", 100, 200, "region1")];
    let sample_regions = vec![Region::new("chr1", 100, 200, "region1")];

    // A 50-base flank empties the 100-base regions: the trim is an error.
    let result =
        calibrate_by_sample_profile(&reader, &target_regions, &sample_regions, 50, 100, 20, 42);
    assert!(result.is_err());
}

#[test]
fn test_calibrate_regions() {
    let records = vec![
        create_mock_record(0, 100, "read1"),
        create_mock_record(0, 200, "read2"),
    ];
    let reader = create_mock_reader_with_records(records);

    let target_regions = vec![Region::new("chrQ_mirror", 0, 300, "region1")];
    let sample_regions = vec![Region::new("chrQ_mirror", 0, 300, "region1")];

    let result = calibrate_regions(&reader, &target_regions, &sample_regions, 100, 20, 42);
    assert!(result.is_ok());
}

#[test]
fn test_calibrate_regions_missing_sample() {
    let reader = create_mock_reader_with_records(vec![]);

    let target_regions = vec![Region::new("chrQ_mirror", 0, 300, "region1")];

    let result = calibrate_regions(&reader, &target_regions, &[], 100, 20, 42);
    assert!(result.is_err());
}

#[test]
fn test_calibrated_error() {
    let err = CalibrateError::new("test error");
    assert_eq!(err.to_string(), "test error");
}

#[test]
fn test_zero_coverage_error_text() {
    let reader = create_mock_reader_with_records(vec![]);
    let target_regions = vec![Region::new("chrQ_mirror", 0, 1000, "region1")];
    let err = determine_downsampling_probabilities(&reader, &target_regions, None, 10)
        .unwrap_err();
    assert_eq!(
        err.to_string(),
        "calibration error: Target mean coverage for region region1 is zero"
    );
}

#[test]
fn test_upsample_error_text() {
    let records = vec![create_mock_record(CHRQ_MIRROR_TID, 100, "read1")];
    let reader = create_mock_reader_with_records(records);
    let target_regions = vec![Region::new("chrQ_mirror", 100, 200, "region1")];
    let err = determine_downsampling_probabilities(&reader, &target_regions, None, 10)
        .unwrap_err();
    assert_eq!(
        err.to_string(),
        "calibration error: Target mean coverage for region region1 is less than sample mean coverage"
    );
}

#[test]
fn test_missing_sample_error_text() {
    let records = vec![create_mock_record(CHRQ_MIRROR_TID, 100, "read1")];
    let reader = create_mock_reader_with_records(records);
    let target_regions = vec![Region::new("chrQ_mirror", 100, 200, "region1")];
    let sample_regions = vec![Region::new("chr1", 100, 200, "other")];
    let err = determine_downsampling_probabilities(
        &reader,
        &target_regions,
        Some(&sample_regions),
        0,
    )
    .unwrap_err();
    assert_eq!(
        err.to_string(),
        "calibration error: No sample mean coverage found for target region region1"
    );
}

#[test]
fn test_window_starts_counts() {
    let records = vec![
        create_mock_record(CHRQ_MIRROR_TID, 0, "read1"),
        create_mock_record(CHRQ_MIRROR_TID, 5, "read2"),
        create_mock_record(CHRQ_MIRROR_TID, 10, "read3"),
        create_mock_record(CHRQ_MIRROR_TID, 25, "read4"),
    ];
    let reader = create_mock_reader_with_records(records);
    let region = Region::new("chrQ_mirror", 0, 35, "region1");
    let starts = window_starts(&reader, &region, 10, 0).unwrap();
    assert_eq!(starts, vec![2, 1, 1]);
}

#[test]
fn test_subsample_mate_already_kept() {
    // The mate of an accepted read is accepted without a new draw, even at
    // probability zero.
    let record = create_mock_record(0, 100, "read1");
    let mut keep = NameSet::new();
    keep.insert("read1".to_owned());
    let considered = NameSet::new();
    let mut rng = SeededRng::from_seed(42);
    let never = Prob { num: 0, den: 1 };
    assert!(subsample(&record, &mut keep, &considered, never, &mut rng));
}

#[test]
fn test_subsample_already_considered() {
    // A name whose mate was evaluated and rejected stays rejected, even at
    // probability one.
    let record = create_mock_record(0, 100, "read1");
    let mut keep = NameSet::new();
    let mut considered = NameSet::new();
    considered.insert("read1".to_owned());
    let mut rng = SeededRng::from_seed(42);
    let certain = Prob { num: 1, den: 1 };
    assert!(!subsample(&record, &mut keep, &considered, certain, &mut rng));
}
