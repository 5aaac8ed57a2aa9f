use sequintools::calibration::calibrate;
use sequintools::calibration::determine_downsampling_probabilities;
use sequintools::calibration::subsample;
use sequintools::calibration::CalibrationMode;
use sequintools::calibration::Prob;
use sequintools::depth::mean_depth;
use sequintools::names::NameSet;
use sequintools::records::AlignmentData;
use sequintools::records::Contig;
use sequintools::records::Rec;
use sequintools::region::Region;
use sequintools::rng::SeededRng;

const CHRQ_MIRROR_TID: i32 = 3;

fn default_contigs() -> Vec<Contig> {
    vec![
        Contig { name: "chr1".to_owned(), length: 5000 },
        Contig { name: "chr2".to_owned(), length: 5000 },
        Contig { name: "chr3".to_owned(), length: 5000 },
        Contig { name: "chrQ_mirror".to_owned(), length: 9800 },
    ]
}

fn mock_reader(records: Vec<Rec>) -> AlignmentData {
    AlignmentData { contigs: default_contigs(), records }
}

fn uniform_reads(n: usize) -> Vec<Rec> {
    (1..=n)
        .map(|i| Rec::new(CHRQ_MIRROR_TID, 100, &format!("read{}", i), 100))
        .collect()
}

fn kept_names(data: &AlignmentData, seed: u64) -> Vec<String> {
    let target_regions = vec![Region::new("chrQ_mirror", 100, 200, "region1")];
    let mode = CalibrationMode::FixedCoverage { fold_coverage: 20, seed };
    let out = calibrate(data, &target_regions, mode, true).unwrap();
    out.into_iter().map(|r| r.qname).collect()
}

#[test]
fn fixed_coverage_is_deterministic() {
    let data = mock_reader(uniform_reads(40));
    let first = kept_names(&data, 4242);
    let second = kept_names(&data, 4242);
    assert_eq!(first, second);
}

#[test]
fn pair_completeness_keeps_both_mates() {
    // Two records per name: whenever a name is kept, both mates come out.
    let mut records = Vec::new();
    for i in 1..=20 {
        let name = format!("pair{}", i);
        records.push(Rec::new(CHRQ_MIRROR_TID, 100, &name, 100));
        records.push(Rec::new(CHRQ_MIRROR_TID, 150, &name, 50));
    }
    let data = mock_reader(records);
    let target_regions = vec![Region::new("chrQ_mirror", 100, 200, "region1")];
    let mode = CalibrationMode::FixedCoverage { fold_coverage: 15, seed: 7 };
    let out = calibrate(&data, &target_regions, mode, true).unwrap();
    let mut counts = std::collections::BTreeMap::new();
    for r in &out {
        *counts.entry(r.qname.clone()).or_insert(0u32) += 1;
    }
    assert!(!counts.is_empty());
    for (_, c) in counts {
        assert_eq!(c, 2);
    }
}

#[test]
fn zero_overlap_region_is_all_zero() {
    let data = mock_reader(vec![]);
    let region = Region::new("chrQ_mirror", 100, 200, "region1");
    let d = mean_depth(&data, &region, 0, 0, 0).unwrap();
    assert_eq!(d.len(), 100);
    assert_eq!(d.histogram.len(), 100);
    assert!(d.histogram.iter().all(|&(_, depth)| depth == 0));
    let mean = d.mean().unwrap();
    assert_eq!(mean.num, 0);
    assert!(d.cv().is_none());
}

#[test]
fn uniform_depth_forty_gives_probability_half() {
    let data = mock_reader(uniform_reads(40));
    let target_regions = vec![Region::new("chrQ_mirror", 100, 200, "region1")];
    let probs = determine_downsampling_probabilities(&data, &target_regions, None, 20).unwrap();
    let p = sequintools::names::assoc_get(&probs, "region1").unwrap();
    assert_eq!(p.num as f64 / p.den as f64, 0.5);
}

#[test]
fn subsampling_at_half_keeps_about_half() {
    // One draw per distinct name at probability one half over a hundred
    // pairs: the kept count stays near the expectation of fifty.
    let half = Prob { num: 1, den: 2 };
    let mut keep = NameSet::new();
    let considered = NameSet::new();
    let mut rng = SeededRng::from_seed(4242);
    let mut kept = 0u32;
    for i in 1..=100 {
        let rec = Rec::new(CHRQ_MIRROR_TID, 100, &format!("pair{}", i), 100);
        if subsample(&rec, &mut keep, &considered, half, &mut rng) {
            kept += 1;
        }
    }
    assert!(kept >= 35 && kept <= 65, "kept {}", kept);
}

#[test]
fn final_pass_keeps_reads_with_uncalibrated_mates() {
    // Reads whose mates lie outside the calibrated contigs are written
    // unless their exclusion was requested.
    let mut records = uniform_reads(40);
    records.push(Rec::new(0, 300, "background", 100));
    let data = mock_reader(records);
    let target_regions = vec![Region::new("chrQ_mirror", 100, 200, "region1")];

    let mode = CalibrationMode::FixedCoverage { fold_coverage: 20, seed: 1 };
    let kept = calibrate(&data, &target_regions, mode, false).unwrap();
    assert!(kept.iter().any(|r| r.qname == "background"));

    let mode = CalibrationMode::FixedCoverage { fold_coverage: 20, seed: 1 };
    let excluded = calibrate(&data, &target_regions, mode, true).unwrap();
    assert!(excluded.iter().all(|r| r.qname != "background"));
}

#[test]
fn seeded_draws_are_reproducible_and_seed_sensitive() {
    let mut a = SeededRng::from_seed(99);
    let mut b = SeededRng::from_seed(99);
    let mut c = SeededRng::from_seed(100);
    let xs: Vec<u64> = (0..8).map(|_| a.next_u64()).collect();
    let ys: Vec<u64> = (0..8).map(|_| b.next_u64()).collect();
    let zs: Vec<u64> = (0..8).map(|_| c.next_u64()).collect();
    assert_eq!(xs, ys);
    assert_ne!(xs, zs);
}

#[test]
fn choose_from_is_reproducible_without_replacement() {
    let a = sequintools::calibration::choose_from(100, 10, 5);
    let b = sequintools::calibration::choose_from(100, 10, 5);
    assert_eq!(a, b);
    let mut sorted = a.clone();
    sorted.sort_unstable();
    sorted.dedup();
    assert_eq!(sorted.len(), a.len());
}
