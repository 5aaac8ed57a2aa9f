use sequintools::coverage::Ratio;
use sequintools::depth::bedcov_report;
use sequintools::depth::build_line_for_header;
use sequintools::depth::mean_depth;
use sequintools::depth::write_summary_report;
use sequintools::depth::CalibrationResult;
use sequintools::depth::DepthResult;
use sequintools::records::AlignmentData;
use sequintools::records::Contig;
use sequintools::records::Rec;
use sequintools::region::Region;

const CHRQ_MIRROR_TID: i32 = 3;

fn default_contigs() -> Vec<Contig> {
    vec![
        Contig { name: "chr1".to_owned(), length: 5000 },
        Contig { name: "chr2".to_owned(), length: 5000 },
        Contig { name: "chr3".to_owned(), length: 5000 },
        Contig { name: "chrQ_mirror".to_owned(), length: 9800 },
    ]
}

fn mock_reader(records: Vec<Rec>) -> AlignmentData {
    AlignmentData { contigs: default_contigs(), records }
}

#[test]
fn build_line() {
    let region = Region {
        contig: "chr1".to_owned(),
        beg: 100,
        end: 200,
        name: "region1".to_owned(),
    };

    let depth_result =
        DepthResult::create_for_test(vec![(1, 33), (1, 31), (1, 36), (2, 35), (2, 37)], 10);
    let line = build_line_for_header(&region, &depth_result);

    assert_eq!(
        line,
        vec![
            "chr1", "100", "200", "region1", "10", "31", "37", "34.40", "2.15", "0.06",
        ]
    );
}

#[test]
fn test_mean_depth_uniform() {
    let records: Vec<Rec> = (1..=33)
        .map(|i| Rec::new(0, 99, &format!("r{}", i), 100))
        .collect();
    let reader = mock_reader(records);
    let region = Region::new("chr1", 99, 199, "region");
    let result = mean_depth(&reader, &region, 0, 0, 0).unwrap();
    let mean = result.mean().unwrap();
    assert_eq!(mean.num as f64 / mean.den as f64, 33.0);
    assert_eq!(result.len(), 100);
    assert_eq!(result.max().unwrap(), 33);
}

#[test]
fn test_mean_depth_capped() {
    let records: Vec<Rec> = (1..=40)
        .map(|i| Rec::new(0, 100, &format!("r{}", i), 100))
        .collect();
    let reader = mock_reader(records);
    let region = Region::new("chr1", 100, 200, "region");

    let unlimited = mean_depth(&reader, &region, 0, 0, 0).unwrap();
    assert_eq!(unlimited.max().unwrap(), 40);

    let capped = mean_depth(&reader, &region, 0, 0, 10).unwrap();
    assert_eq!(capped.max().unwrap(), 10);
}

#[test]
fn test_mean_depth_positions() {
    let reader = mock_reader(vec![Rec::new(0, 100, "r1", 50)]);
    let region = Region::new("chr1", 100, 200, "region");
    let result = mean_depth(&reader, &region, 10, 0, 0).unwrap();
    assert_eq!(result.len(), 80);
    assert_eq!(result.histogram[0], (110, 1));
    assert_eq!(result.histogram[39], (149, 1));
    assert_eq!(result.histogram[40], (150, 0));
}

#[test]
fn test_bedcov_report_golden() {
    let records: Vec<Rec> = (1..=3)
        .map(|i| Rec::new(0, 100, &format!("r{}", i), 100))
        .collect();
    let reader = mock_reader(records);
    let regions = vec![Region::new("chr1", 100, 200, "region1")];
    let report = bedcov_report(&reader, &regions, 0, 0, 8000).unwrap();
    let expected = "\
chrom,beg,end,name,len,min,max,mean,std,cv
chr1,100,200,region1,100,3,3,3.00,0.00,0.00";
    assert_eq!(report.trim(), expected.trim());
}

#[test]
fn test_bedcov_report_missing_contig() {
    let reader = mock_reader(vec![]);
    let regions = vec![Region::new("chrX", 100, 200, "region1")];
    assert!(bedcov_report(&reader, &regions, 0, 0, 8000).is_err());
}

#[test]
fn test_write_summary_report() {
    let results = vec![
        CalibrationResult {
            region: Region::new("chrQ", 1, 2, "region1"),
            uncalibrated_coverage: Ratio { num: 1, den: 1 },
            target_coverage: Ratio { num: 2, den: 1 },
            calibrated_coverage: Ratio { num: 3, den: 1 },
        },
        CalibrationResult {
            region: Region::new("chrQ", 10, 20, "region2"),
            uncalibrated_coverage: Ratio { num: 4, den: 1 },
            target_coverage: Ratio { num: 5, den: 1 },
            calibrated_coverage: Ratio { num: 6, den: 1 },
        },
    ];
    let report = write_summary_report(&results);
    let expected = "\
name,chrom,start,end,uncalibrated_coverage,target_coverage,calibrated_coverage
region1,chrQ,1,2,1.00,2.00,3.00
region2,chrQ,10,20,4.00,5.00,6.00";
    assert_eq!(report.trim(), expected.trim());
}

#[test]
fn test_depth_result_stats_empty() {
    let d = DepthResult::create_for_test(vec![], 0);
    assert!(d.min().is_none());
    assert!(d.max().is_none());
    assert!(d.mean().is_none());
    assert!(d.std_dev().is_none());
    assert!(d.cv().is_none());
}
