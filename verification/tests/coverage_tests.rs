use sequintools::coverage::coverage_for_region;
use sequintools::coverage::write_csv;
use sequintools::coverage::RegionCoverage;
use sequintools::records::AlignmentData;
use sequintools::records::Contig;
use sequintools::records::Rec;
use sequintools::region::Region;

const CHRQ_MIRROR_TID: i32 = 3;

fn default_contigs() -> Vec<Contig> {
    vec![
        Contig { name: "chr1".to_owned(), length: 5000 },
        Contig { name: "chr2".to_owned(), length: 5000 },
        Contig { name: "chr3".to_owned(), length: 5000 },
        Contig { name: "chrQ_mirror".to_owned(), length: 9800 },
    ]
}

fn mock_reader(records: Vec<Rec>) -> AlignmentData {
    AlignmentData { contigs: default_contigs(), records }
}

fn create_mock_record(tid: i32, pos: i64, qname: &str) -> Rec {
    Rec::new(tid, pos, qname, 100)
}

#[test]
fn test_write_csv() {
    let coverages = vec![
        RegionCoverage::new("chr1", 100, 200, "region1", vec![1, 2, 3]),
        RegionCoverage::new("chr1", 200, 300, "region2", vec![4, 5, 6]),
    ];
    let output = write_csv(&coverages, None);

    let expected = "\
name,chrom,beg,end,min,max,mean,std,cv
region1,chr1,100,200,1,3,2.00,0.82,0.41
region2,chr1,200,300,4,6,5.00,0.82,0.16";
    assert_eq!(output.trim(), expected.trim());
}

#[test]
fn test_write_csv_with_thresholds() {
    let coverages = vec![
        RegionCoverage::new("chr1", 100, 200, "region1", vec![1, 2, 3]),
        RegionCoverage::new("chr1", 200, 300, "region2", vec![4, 5, 6]),
    ];
    let thresholds = Some(vec![2, 4]);
    let output = write_csv(&coverages, thresholds);

    let expected = "\
name,chrom,beg,end,min,max,mean,std,cv,pct_gt_2,pct_gt_4
region1,chr1,100,200,1,3,2.00,0.82,0.41,0.67,0.00
region2,chr1,200,300,4,6,5.00,0.82,0.16,1.00,1.00";
    assert_eq!(output.trim(), expected.trim());
}

#[test]
fn test_write_csv_no_coverage() {
    let coverages = vec![RegionCoverage::new("chr1", 100, 200, "region1", vec![])];
    let expected = "\
name,chrom,beg,end,min,max,mean,std,cv
region1,chr1,100,200,0,0,0.00,0.00,0.00";
    let output = write_csv(&coverages, None);
    assert_eq!(
        output.trim(),
        expected.trim(),
        "Expected:\n{expected}\nGot:\n{output}"
    );
}

#[test]
fn test_coverage_for_region_empty() {
    let mock = mock_reader(vec![]);
    let region = Region::new("chrQ_mirror", 100, 200, "test_region");
    let result = coverage_for_region(&mock, &region, 0, 0);
    assert!(result.is_ok());
    let coverage = result.unwrap();
    let max = coverage.max().expect("should have max");
    assert_eq!(max, 0);
}

#[test]
fn test_coverage_for_region() {
    let mut record = Rec::new(CHRQ_MIRROR_TID, 100, "read1", 100);
    record.flags = 99; // paired, proper pair, mate reverse, first in template
    let mock = mock_reader(vec![record]);
    let region = Region::new("chrQ_mirror", 100, 200, "test_region");
    let result = coverage_for_region(&mock, &region, 0, 0);
    assert!(result.is_ok());
    let coverage = result.unwrap();
    let max = coverage.max().expect("should have max");
    assert_eq!(max, 1);
    let mean = coverage.mean().unwrap();
    assert_eq!(mean.num as f32 / mean.den as f32, 1.0);
}

#[test]
fn test_coverage_for_region_missing_chrom() {
    let record = create_mock_record(CHRQ_MIRROR_TID, 100, "read1");
    let mock = mock_reader(vec![record]);
    let region = Region::new("chrX", 100, 200, "test_region");
    let result = coverage_for_region(&mock, &region, 0, 0);
    assert!(result.is_err());
}

#[test]
fn test_coverage_for_region_skip_reads() {
    let record1 = create_mock_record(CHRQ_MIRROR_TID, 100, "read1");
    let mut record2 = create_mock_record(CHRQ_MIRROR_TID, 100, "read2");
    record2.mapq = 10;
    let record3 = create_mock_record(CHRQ_MIRROR_TID, 100, "read3");

    let mock = mock_reader(vec![record1, record2, record3]);
    let region = Region::new("chrQ_mirror", 100, 200, "test_region");
    let min_mapq = 20;
    let result = coverage_for_region(&mock, &region, min_mapq, 0);
    assert!(result.is_ok());
    let coverage = result.unwrap();
    let max = coverage.max().expect("should have max");
    assert_eq!(max, 2);
    let mean = coverage.mean().unwrap();
    assert_eq!(mean.num as f32 / mean.den as f32, 2.0);
}

#[test]
fn test_coverage_for_region_flank_overflow() {
    let mock = mock_reader(vec![]);
    let region = Region::new("chrQ_mirror", 100, 200, "test_region");
    let flank = u64::MAX;
    let result = coverage_for_region(&mock, &region, 0, flank);
    assert!(result.is_err());
    let err = result.unwrap_err();
    assert!(err
        .to_string()
        .contains("Region start + flank overflowed for region"));
}

#[test]
fn test_coverage_for_region_flank_underflow() {
    let mock = mock_reader(vec![]);
    let region = Region::new("chrQ_mirror", u64::MIN, 200, "test_region");
    let flank = u64::MAX - 10;
    let result = coverage_for_region(&mock, &region, 0, flank);
    assert!(result.is_err());
    let err = result.unwrap_err();
    assert!(err
        .to_string()
        .contains("Region end - flank underflowed for region"));
}

#[test]
fn test_coverage_for_region_flank_bigger_than_region() {
    let mock = mock_reader(vec![]);
    let region = Region::new("chrQ_mirror", 100, 200, "test_region");
    let flank = 150;
    let result = coverage_for_region(&mock, &region, 0, flank);
    assert!(result.is_err());
    let err = result.unwrap_err();
    assert!(err
        .to_string()
        .contains("Region start >= end after applying flank for region"));
}

#[test]
fn test_coverage_cigar_gaps() {
    // A 10-base match, a 10-base deletion, then a 10-base match: the middle
    // ten positions advance the cursor without adding depth.
    let mut record = Rec::new(CHRQ_MIRROR_TID, 100, "read1", 10);
    record.cigar = vec![
        sequintools::records::CigarOp::Match(10),
        sequintools::records::CigarOp::Del(10),
        sequintools::records::CigarOp::Match(10),
    ];
    let mock = mock_reader(vec![record]);
    let region = Region::new("chrQ_mirror", 100, 130, "test_region");
    let coverage = coverage_for_region(&mock, &region, 0, 0).unwrap();
    assert_eq!(coverage.coverage[0], 1);
    assert_eq!(coverage.coverage[9], 1);
    assert_eq!(coverage.coverage[10], 0);
    assert_eq!(coverage.coverage[19], 0);
    assert_eq!(coverage.coverage[20], 1);
    assert_eq!(coverage.coverage[29], 1);
}

#[test]
fn test_coverage_excludes_duplicates() {
    let mut record = create_mock_record(CHRQ_MIRROR_TID, 100, "read1");
    record.flags = sequintools::records::FLAG_DUPLICATE;
    let keeper = create_mock_record(CHRQ_MIRROR_TID, 100, "read2");
    let mock = mock_reader(vec![record, keeper]);
    let region = Region::new("chrQ_mirror", 100, 200, "test_region");
    let coverage = coverage_for_region(&mock, &region, 0, 0).unwrap();
    assert_eq!(coverage.max().unwrap(), 1);
}
